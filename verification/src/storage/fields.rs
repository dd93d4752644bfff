//! Field values and the ordered mapping from field names to values.

use vstd::prelude::*;
use crate::codec::{
    enc_bool, enc_i64, enc_items, enc_str, enc_u32, enc_u64, lemma_enc_items_push,
    lemma_enc_parse_bool, lemma_enc_parse_i64, lemma_enc_parse_items, lemma_enc_parse_str,
    lemma_enc_parse_u32, lemma_enc_parse_u64, lemma_parse_enc_bool, lemma_parse_enc_i64,
    lemma_parse_enc_items, lemma_parse_enc_str, lemma_parse_items_none, lemma_parse_enc_u32, lemma_parse_enc_u64,
    lemma_parse_items_step, parse_bool, parse_i64, parse_items, parse_str, parse_u32, parse_u64,
    put_bool, put_i64, put_str, put_u32, put_u64, str_fits, take_bool, take_i64, take_str,
    take_u32, take_u64,
};
use crate::error::Error;
use crate::keys::{key_lt, key_order, lemma_key_lt_total, lemma_key_lt_transitive, KeyOrder};

verus! {

/// Whether the bits are those of a 64-bit float that is not a number: the
/// exponent is all ones and the fraction is not zero.
pub open spec fn is_nan_bits(bits: u64) -> bool {
    (bits & 0x7ff0_0000_0000_0000) == 0x7ff0_0000_0000_0000 && (bits & 0x000f_ffff_ffff_ffff)
        != 0
}

/// Why a float was refused as a field value.
#[derive(Debug, Clone, Copy, PartialEq, Eq)]
pub struct FloatConversionError(pub &'static str);

impl FloatConversionError {
    /// The kind of the error.
    pub fn kind(&self) -> (e: Error)
        ensures
            e == Error::InvalidValue,
    {
        Error::InvalidValue
    }
}

/// A 64-bit float, held by its bits, that is not NaN.
#[derive(Debug, Clone, Copy, PartialEq, Eq)]
pub struct NotNan {
    bits: u64,
}

impl NotNan {
    #[verifier::type_invariant]
    spec fn is_number(self) -> bool {
        !is_nan_bits(self.bits)
    }

    /// The bits of the float.
    pub closed spec fn view(&self) -> u64 {
        self.bits
    }

    /// The float with the given bits, unless they are those of a NaN.
    pub fn new(bits: u64) -> (r: Result<NotNan, FloatConversionError>)
        ensures
            r is Ok <==> !is_nan_bits(bits),
            r matches Ok(n) ==> n@ == bits,
    {
        if (bits & 0x7ff0_0000_0000_0000) == 0x7ff0_0000_0000_0000 && (bits
            & 0x000f_ffff_ffff_ffff) != 0 {
            Err(FloatConversionError("float value is NaN; a float field must be a number"))
        } else {
            Ok(NotNan { bits })
        }
    }

    /// The bits of the float.
    pub fn to_bits(&self) -> (bits: u64)
        ensures
            bits == self@,
            !is_nan_bits(bits),
    {
        proof {
            use_type_invariant(self);
        }
        self.bits
    }
}

/// The value of one field of a record.
#[derive(Debug, PartialEq, Eq)]
pub enum FieldValue {
    Null,
    Bool(bool),
    Int(i64),
    UInt(u64),
    Float(NotNan),
    Str(String),
}

/// A field value as a mathematical value. A float stands by its bits.
pub enum FieldModel {
    Null,
    Bool(bool),
    Int(i64),
    UInt(u64),
    Float(u64),
    Str(Seq<char>),
}

impl View for FieldValue {
    type V = FieldModel;

    open spec fn view(&self) -> FieldModel {
        match self {
            FieldValue::Null => FieldModel::Null,
            FieldValue::Bool(b) => FieldModel::Bool(*b),
            FieldValue::Int(i) => FieldModel::Int(*i),
            FieldValue::UInt(u) => FieldModel::UInt(*u),
            FieldValue::Float(n) => FieldModel::Float(n@),
            FieldValue::Str(s) => FieldModel::Str(s@),
        }
    }
}

impl Clone for FieldValue {
    fn clone(&self) -> (r: Self)
        ensures
            r@ == self@,
    {
        match self {
            FieldValue::Null => FieldValue::Null,
            FieldValue::Bool(b) => FieldValue::Bool(*b),
            FieldValue::Int(i) => FieldValue::Int(*i),
            FieldValue::UInt(u) => FieldValue::UInt(*u),
            FieldValue::Float(n) => FieldValue::Float(*n),
            FieldValue::Str(s) => FieldValue::Str(s.clone()),
        }
    }
}

impl From<String> for FieldValue {
    fn from(s: String) -> (v: Self) {
        FieldValue::Str(s)
    }
}

impl vstd::std_specs::convert::FromSpecImpl<String> for FieldValue {
    open spec fn obeys_from_spec() -> bool {
        true
    }

    open spec fn from_spec(s: String) -> Self {
        FieldValue::Str(s)
    }
}

impl From<i64> for FieldValue {
    fn from(i: i64) -> (v: Self) {
        FieldValue::Int(i)
    }
}

impl vstd::std_specs::convert::FromSpecImpl<i64> for FieldValue {
    open spec fn obeys_from_spec() -> bool {
        true
    }

    open spec fn from_spec(i: i64) -> Self {
        FieldValue::Int(i)
    }
}

impl From<u64> for FieldValue {
    fn from(u: u64) -> (v: Self) {
        FieldValue::UInt(u)
    }
}

impl vstd::std_specs::convert::FromSpecImpl<u64> for FieldValue {
    open spec fn obeys_from_spec() -> bool {
        true
    }

    open spec fn from_spec(u: u64) -> Self {
        FieldValue::UInt(u)
    }
}

impl FieldValue {
    /// A float field from the bits of the float. NaN is refused.
    pub fn from_float_bits(bits: u64) -> (r: Result<FieldValue, FloatConversionError>)
        ensures
            r is Ok <==> !is_nan_bits(bits),
            r matches Ok(v) ==> v@ == FieldModel::Float(bits),
    {
        match NotNan::new(bits) {
            Ok(n) => Ok(FieldValue::Float(n)),
            Err(e) => Err(e),
        }
    }
}

// ------------------------------------------------------------------ one value

/// A value that can be stored: a float is a number and a string is short
/// enough for its length to be written.
pub open spec fn field_valid(f: FieldModel) -> bool {
    match f {
        FieldModel::Float(bits) => !is_nan_bits(bits),
        FieldModel::Str(s) => str_fits(s),
        _ => true,
    }
}

/// A value is written as the number of its variant, a `u32`, then its content.
pub open spec fn enc_field(f: FieldModel) -> Seq<u8> {
    match f {
        FieldModel::Null => enc_u32(0),
        FieldModel::Bool(b) => enc_u32(1) + enc_bool(b),
        FieldModel::Int(i) => enc_u32(2) + enc_i64(i),
        FieldModel::UInt(u) => enc_u32(3) + enc_u64(u),
        FieldModel::Float(bits) => enc_u32(4) + enc_u64(bits),
        FieldModel::Str(s) => enc_u32(5) + enc_str(s),
    }
}

/// Reads a field value off the front of a byte string and gives back what follows it.
pub open spec fn parse_field(s: Seq<u8>) -> Option<(FieldModel, Seq<u8>)> {
    match parse_u32(s) {
        None => None,
        Some((tag, rest)) => if tag == 0 {
            Some((FieldModel::Null, rest))
        } else if tag == 1 {
            match parse_bool(rest) {
                Some((b, r)) => Some((FieldModel::Bool(b), r)),
                None => None,
            }
        } else if tag == 2 {
            match parse_i64(rest) {
                Some((i, r)) => Some((FieldModel::Int(i), r)),
                None => None,
            }
        } else if tag == 3 {
            match parse_u64(rest) {
                Some((u, r)) => Some((FieldModel::UInt(u), r)),
                None => None,
            }
        } else if tag == 4 {
            match parse_u64(rest) {
                Some((bits, r)) => if is_nan_bits(bits) {
                    None
                } else {
                    Some((FieldModel::Float(bits), r))
                },
                None => None,
            }
        } else if tag == 5 {
            match parse_str(rest) {
                Some((t, r)) => Some((FieldModel::Str(t), r)),
                None => None,
            }
        } else {
            None
        },
    }
}

/// Reading the bytes of a field value gives it back, whatever follows.
pub proof fn lemma_parse_enc_field(f: FieldModel, rest: Seq<u8>)
    requires
        field_valid(f),
    ensures
        parse_field(enc_field(f) + rest) == Some((f, rest)),
{
    match f {
        FieldModel::Null => {
            lemma_parse_enc_u32(0, rest);
        },
        FieldModel::Bool(b) => {
            assert(enc_field(f) + rest =~= enc_u32(1) + (enc_bool(b) + rest));
            lemma_parse_enc_u32(1, enc_bool(b) + rest);
            lemma_parse_enc_bool(b, rest);
        },
        FieldModel::Int(i) => {
            assert(enc_field(f) + rest =~= enc_u32(2) + (enc_i64(i) + rest));
            lemma_parse_enc_u32(2, enc_i64(i) + rest);
            lemma_parse_enc_i64(i, rest);
        },
        FieldModel::UInt(u) => {
            assert(enc_field(f) + rest =~= enc_u32(3) + (enc_u64(u) + rest));
            lemma_parse_enc_u32(3, enc_u64(u) + rest);
            lemma_parse_enc_u64(u, rest);
        },
        FieldModel::Float(bits) => {
            assert(enc_field(f) + rest =~= enc_u32(4) + (enc_u64(bits) + rest));
            lemma_parse_enc_u32(4, enc_u64(bits) + rest);
            lemma_parse_enc_u64(bits, rest);
        },
        FieldModel::Str(s) => {
            assert(enc_field(f) + rest =~= enc_u32(5) + (enc_str(s) + rest));
            lemma_parse_enc_u32(5, enc_str(s) + rest);
            lemma_parse_enc_str(s, rest);
        },
    }
}

/// What was read as a field value stands written at the front.
pub proof fn lemma_enc_parse_field(s: Seq<u8>)
    requires
        parse_field(s) is Some,
    ensures
        field_valid((parse_field(s)->0).0),
        s == enc_field((parse_field(s)->0).0) + (parse_field(s)->0).1,
{
    lemma_enc_parse_u32(s);
    let (tag, rest) = parse_u32(s)->0;
    let (f, after) = parse_field(s)->0;
    if tag == 0 {
    } else if tag == 1 {
        lemma_enc_parse_bool(rest);
    } else if tag == 2 {
        lemma_enc_parse_i64(rest);
    } else if tag == 3 {
        lemma_enc_parse_u64(rest);
    } else if tag == 4 {
        lemma_enc_parse_u64(rest);
    } else {
        lemma_enc_parse_str(rest);
    }
    assert(s =~= enc_field(f) + after);
}

/// Appends the encoding of a value.
pub fn put_field(out: &mut Vec<u8>, value: &FieldValue)
    ensures
        final(out)@ == old(out)@ + enc_field(value@),
        field_valid(value@),
{
    match value {
        FieldValue::Null => {
            put_u32(out, 0);
        },
        FieldValue::Bool(b) => {
            put_u32(out, 1);
            put_bool(out, *b);
        },
        FieldValue::Int(i) => {
            put_u32(out, 2);
            put_i64(out, *i);
        },
        FieldValue::UInt(u) => {
            put_u32(out, 3);
            put_u64(out, *u);
        },
        FieldValue::Float(n) => {
            put_u32(out, 4);
            put_u64(out, n.to_bits());
        },
        FieldValue::Str(s) => {
            put_u32(out, 5);
            put_str(out, s.as_str());
        },
    }
    proof {
        assert(out@ =~= old(out)@ + enc_field(value@));
    }
}

/// Reads a value at `at`.
pub fn take_field(b: &[u8], at: usize) -> (r: Option<(FieldValue, usize)>)
    requires
        at <= b@.len(),
    ensures
        match r {
            Some((v, end)) => at <= end <= b@.len() && parse_field(b@.skip(at as int)) == Some(
                (v@, b@.skip(end as int)),
            ),
            None => parse_field(b@.skip(at as int)) is None,
        },
{
    let (tag, start) = match take_u32(b, at) {
        Some(p) => p,
        None => { return None; },
    };
    if tag == 0 {
        Some((FieldValue::Null, start))
    } else if tag == 1 {
        match take_bool(b, start) {
            Some((v, end)) => Some((FieldValue::Bool(v), end)),
            None => None,
        }
    } else if tag == 2 {
        match take_i64(b, start) {
            Some((v, end)) => Some((FieldValue::Int(v), end)),
            None => None,
        }
    } else if tag == 3 {
        match take_u64(b, start) {
            Some((v, end)) => Some((FieldValue::UInt(v), end)),
            None => None,
        }
    } else if tag == 4 {
        match take_u64(b, start) {
            Some((bits, end)) => match NotNan::new(bits) {
                Ok(n) => Some((FieldValue::Float(n), end)),
                Err(_) => None,
            },
            None => None,
        }
    } else if tag == 5 {
        match take_str(b, start) {
            Some((v, end)) => Some((FieldValue::Str(v), end)),
            None => None,
        }
    } else {
        None
    }
}

// ------------------------------------------------------------------ a mapping

/// The model of a mapping: its entries, name and value, in the order of the
/// names.
pub type Fields = Seq<(Seq<char>, FieldModel)>;

/// The names go up strictly, so none occurs twice.
pub open spec fn fields_sorted(fs: Fields) -> bool {
    forall|i: int, j: int| 0 <= i < j < fs.len() ==> key_lt(#[trigger] fs[i].0, #[trigger] fs[j].0)
}

/// A mapping that can be stored.
pub open spec fn fields_valid(fs: Fields) -> bool {
    &&& fields_sorted(fs)
    &&& fs.len() <= u64::MAX
    &&& forall|i: int| 0 <= i < fs.len() ==> str_fits(#[trigger] fs[i].0) && field_valid(fs[i].1)
}

/// The value that the mapping gives to `name`.
pub open spec fn field_of(fs: Fields, name: Seq<char>) -> Option<FieldModel>
    decreases fs.len(),
{
    if fs.len() == 0 {
        None
    } else if fs[0].0 == name {
        Some(fs[0].1)
    } else {
        field_of(fs.drop_first(), name)
    }
}

/// How many entries at the front have a name before `name`.
pub open spec fn insert_at(fs: Fields, name: Seq<char>) -> int
    decreases fs.len(),
{
    if fs.len() == 0 || !key_lt(fs[0].0, name) {
        0
    } else {
        1 + insert_at(fs.drop_first(), name)
    }
}

/// The mapping with `name` given `value`: the entry of that name is
/// replaced, or a new entry takes its place in the order.
pub open spec fn fields_insert(fs: Fields, name: Seq<char>, value: FieldModel) -> Fields {
    let p = insert_at(fs, name);
    if p < fs.len() && fs[p].0 == name {
        fs.update(p, (name, value))
    } else {
        fs.insert(p, (name, value))
    }
}

/// The mapping that giving the pairs one after the other leaves; of two pairs
/// with one name the later stays.
pub open spec fn fields_from_pairs(pairs: Fields) -> Fields
    decreases pairs.len(),
{
    if pairs.len() == 0 {
        Seq::empty()
    } else {
        fields_insert(fields_from_pairs(pairs.drop_last()), pairs.last().0, pairs.last().1)
    }
}

/// Where `insert_at` points, told from the entries.
pub proof fn lemma_insert_at(fs: Fields, name: Seq<char>, p: int)
    requires
        0 <= p <= fs.len(),
        forall|j: int| 0 <= j < p ==> key_lt(#[trigger] fs[j].0, name),
        p == fs.len() || !key_lt(fs[p].0, name),
    ensures
        insert_at(fs, name) == p,
    decreases fs.len(),
{
    if p > 0 {
        let tail = fs.drop_first();
        assert forall|j: int| 0 <= j < p - 1 implies key_lt(#[trigger] tail[j].0, name) by {
            assert(tail[j] == fs[j + 1]);
        }
        if p - 1 < tail.len() {
            assert(tail[p - 1] == fs[p]);
        }
        lemma_insert_at(tail, name, p - 1);
    }
}

/// In a mapping the value of a name is that of the one entry that holds it.
pub proof fn lemma_field_of(fs: Fields, name: Seq<char>)
    requires
        fields_sorted(fs),
    ensures
        forall|i: int| 0 <= i < fs.len() && #[trigger] fs[i].0 == name ==> field_of(fs, name) == Some(fs[i].1),
        (forall|i: int| 0 <= i < fs.len() ==> #[trigger] fs[i].0 != name) ==> field_of(fs, name) is None,
    decreases fs.len(),
{
    if fs.len() > 0 {
        let tail = fs.drop_first();
        assert forall|i: int, j: int| 0 <= i < j < tail.len() implies key_lt(
            #[trigger] tail[i].0,
            #[trigger] tail[j].0,
        ) by {
            assert(tail[i] == fs[i + 1]);
            assert(tail[j] == fs[j + 1]);
        }
        lemma_field_of(tail, name);
        assert forall|i: int| 0 <= i < fs.len() && #[trigger] fs[i].0 == name implies field_of(
            fs,
            name,
        ) == Some(fs[i].1) by {
            if i > 0 {
                assert(tail[i - 1] == fs[i]);
                if fs[0].0 == name {
                    lemma_key_lt_total(fs[0].0, fs[i].0);
                }
            }
        }
        if forall|i: int| 0 <= i < fs.len() ==> #[trigger] fs[i].0 != name {
            assert forall|i: int| 0 <= i < tail.len() implies #[trigger] tail[i].0 != name by {
                assert(tail[i] == fs[i + 1]);
            }
        }
    }
}

/// Giving a name a value keeps the mapping in order.
pub proof fn lemma_fields_insert_sorted(fs: Fields, name: Seq<char>, value: FieldModel)
    requires
        fields_sorted(fs),
    ensures
        fields_sorted(fields_insert(fs, name, value)),
        insert_at(fs, name) <= fs.len(),
{
    let p = lemma_insert_at_bounds(fs, name);
    let out = fields_insert(fs, name, value);
    if p < fs.len() && fs[p].0 == name {
        assert forall|i: int, j: int| 0 <= i < j < out.len() implies key_lt(
            #[trigger] out[i].0,
            #[trigger] out[j].0,
        ) by {
            assert(out[i].0 == fs[i].0);
            assert(out[j].0 == fs[j].0);
        }
    } else {
        assert forall|i: int, j: int| 0 <= i < j < out.len() implies key_lt(
            #[trigger] out[i].0,
            #[trigger] out[j].0,
        ) by {
            if j < p {
                assert(out[i] == fs[i] && out[j] == fs[j]);
            } else if j == p {
                assert(out[i] == fs[i]);
            } else if i == p {
                assert(out[j] == fs[j - 1]);
                lemma_key_lt_total(fs[p].0, name);
                if j - 1 > p {
                    lemma_key_lt_transitive(name, fs[p].0, fs[j - 1].0);
                }
            } else if i < p {
                assert(out[i] == fs[i] && out[j] == fs[j - 1]);
            } else {
                assert(out[i] == fs[i - 1] && out[j] == fs[j - 1]);
            }
        }
    }
}

/// Where `insert_at` points: every entry before it has a smaller name, and
/// the entry at it, if there is one, has not.
pub proof fn lemma_insert_at_bounds(fs: Fields, name: Seq<char>) -> (p: int)
    ensures
        p == insert_at(fs, name),
        0 <= p <= fs.len(),
        forall|j: int| 0 <= j < p ==> key_lt(#[trigger] fs[j].0, name),
        p == fs.len() || !key_lt(fs[p].0, name),
    decreases fs.len(),
{
    if fs.len() == 0 || !key_lt(fs[0].0, name) {
        0
    } else {
        let tail = fs.drop_first();
        let q = lemma_insert_at_bounds(tail, name);
        assert forall|j: int| 0 <= j < q + 1 implies key_lt(#[trigger] fs[j].0, name) by {
            if j > 0 {
                assert(tail[j - 1] == fs[j]);
            }
        }
        if q < tail.len() {
            assert(tail[q] == fs[q + 1]);
        }
        q + 1
    }
}

/// The entries of a mapping as mathematical values.
pub open spec fn entries_view(entries: Seq<(String, FieldValue)>) -> Fields {
    entries.map_values(|e: (String, FieldValue)| (e.0@, e.1@))
}

/// An ordered mapping from field names to field values.
#[derive(Debug, PartialEq, Eq)]
pub struct FieldMap {
    entries: Vec<(String, FieldValue)>,
}

impl View for FieldMap {
    type V = Fields;

    closed spec fn view(&self) -> Fields {
        entries_view(self.entries@)
    }
}

impl Clone for FieldMap {
    fn clone(&self) -> (r: Self)
        ensures
            r@ == self@,
    {
        proof {
            use_type_invariant(self);
        }
        let mut entries: Vec<(String, FieldValue)> = Vec::new();
        let mut i: usize = 0;
        while i < self.entries.len()
            invariant
                0 <= i <= self.entries@.len(),
                entries@.len() == i,
                entries_view(entries@) == entries_view(self.entries@).take(i as int),
            decreases self.entries@.len() - i,
        {
            let name = self.entries[i].0.clone();
            let value = self.entries[i].1.clone();
            let ghost prev = entries@;
            entries.push((name, value));
            i += 1;
            proof {
                let whole = entries_view(self.entries@);
                assert(entries_view(entries@).len() == i);
                assert forall|j: int| 0 <= j < i implies entries_view(entries@)[j] == whole.take(
                    i as int,
                )[j] by {
                    if j < i - 1 {
                        assert(entries@[j] == prev[j]);
                        assert(entries_view(prev)[j] == whole.take(i - 1)[j]);
                    }
                }
                assert(entries_view(entries@) =~= whole.take(i as int));
            }
        }
        proof {
            assert(entries_view(self.entries@).take(i as int) =~= entries_view(self.entries@));
        }
        FieldMap { entries }
    }
}

impl FieldMap {
    #[verifier::type_invariant]
    spec fn in_order(self) -> bool {
        fields_sorted(entries_view(self.entries@))
    }

    /// The empty mapping.
    pub fn new() -> (m: Self)
        ensures
            m@ == Seq::<(Seq<char>, FieldModel)>::empty(),
    {
        let m = FieldMap { entries: Vec::new() };
        proof {
            assert(entries_view(m.entries@) =~= Seq::<(Seq<char>, FieldModel)>::empty());
        }
        m
    }

    /// The number of names that have a value.
    pub fn len(&self) -> (n: usize)
        ensures
            n == self@.len(),
            fields_sorted(self@),
    {
        proof {
            use_type_invariant(self);
        }
        self.entries.len()
    }

    /// Whether no name has a value.
    pub fn is_empty(&self) -> (r: bool)
        ensures
            r == (self@.len() == 0),
    {
        self.entries.len() == 0
    }

    /// The name and the value at position `i` in the order of the names.
    pub fn entry(&self, i: usize) -> (r: (&String, &FieldValue))
        requires
            i < self@.len(),
        ensures
            r.0@ == self@[i as int].0,
            r.1@ == self@[i as int].1,
    {
        (&self.entries[i].0, &self.entries[i].1)
    }

    /// The value of `name`, if it has one.
    pub fn get(&self, name: &str) -> (r: Option<&FieldValue>)
        ensures
            match r {
                Some(v) => field_of(self@, name@) == Some(v@),
                None => field_of(self@, name@) is None,
            },
    {
        proof {
            use_type_invariant(self);
            lemma_field_of(self@, name@);
        }
        let mut i: usize = 0;
        while i < self.entries.len()
            invariant
                0 <= i <= self.entries@.len(),
                forall|j: int| 0 <= j < i ==> #[trigger] self@[j].0 != name@,
            decreases self.entries@.len() - i,
        {
            if key_order(self.entries[i].0.as_str(), name) == KeyOrder::Equal {
                proof {
                    use_type_invariant(self);
                    lemma_field_of(self@, name@);
                    assert(self@[i as int] == (self.entries@[i as int].0@, self.entries@[i as int].1@));
                    assert(self@[i as int].0 == name@);
                }
                return Some(&self.entries[i].1);
            }
            proof {
                assert(self@[i as int] == (self.entries@[i as int].0@, self.entries@[i as int].1@));
            }
            i += 1;
        }
        proof {
            lemma_field_of(self@, name@);
        }
        None
    }

    /// Gives `name` the value `value`, in place of the value it had.
    pub fn insert(&mut self, name: &str, value: FieldValue)
        ensures
            final(self)@ == fields_insert(old(self)@, name@, value@),
    {
        proof {
            use_type_invariant(&*self);
            lemma_fields_insert_sorted(self@, name@, value@);
        }
        let mut entries: Vec<(String, FieldValue)> = Vec::new();
        std::mem::swap(&mut entries, &mut self.entries);
        let ghost before = entries_view(entries@);
        let mut p: usize = 0;
        let mut found = false;
        let mut done = false;
        while !done && p < entries.len()
            invariant
                0 <= p <= entries@.len(),
                before == entries_view(entries@),
                forall|j: int| 0 <= j < p ==> key_lt(#[trigger] before[j].0, name@),
                done ==> p < entries@.len() && !key_lt(before[p as int].0, name@) && found == (
                before[p as int].0 == name@),
                !done ==> !found,
            decreases entries@.len() - p + (if done { 0int } else { 1int }),
        {
            match key_order(entries[p].0.as_str(), name) {
                KeyOrder::Less => {
                    p += 1;
                },
                KeyOrder::Equal => {
                    found = true;
                    done = true;
                },
                KeyOrder::Greater => {
                    done = true;
                },
            }
        }
        proof {
            lemma_insert_at(before, name@, p as int);
        }
        if found {
            entries.set(p, (name.to_owned(), value));
            proof {
                assert(entries_view(entries@) =~= before.update(p as int, (name@, value@)));
            }
        } else {
            entries.insert(p, (name.to_owned(), value));
            proof {
                assert(entries_view(entries@) =~= before.insert(p as int, (name@, value@)));
            }
        }
        self.entries = entries;
    }
}

// ------------------------------------------------------- a mapping, as bytes

/// The bytes of an entry of a mapping.
pub open spec fn enc_entry(e: (Seq<char>, FieldModel)) -> Seq<u8> {
    enc_str(e.0) + enc_field(e.1)
}

/// Reads an entry of a mapping off the front of a byte string and gives back what follows it.
pub open spec fn parse_entry(s: Seq<u8>) -> Option<((Seq<char>, FieldModel), Seq<u8>)> {
    match parse_str(s) {
        None => None,
        Some((name, rest)) => match parse_field(rest) {
            None => None,
            Some((value, after)) => Some(((name, value), after)),
        },
    }
}

/// `enc_entry` as a function value.
pub open spec fn entry_encoder() -> spec_fn((Seq<char>, FieldModel)) -> Seq<u8> {
    |e: (Seq<char>, FieldModel)| enc_entry(e)
}

/// `parse_entry` as a function value.
pub open spec fn entry_parser() -> spec_fn(Seq<u8>) -> Option<((Seq<char>, FieldModel), Seq<u8>)> {
    |s: Seq<u8>| parse_entry(s)
}

/// A mapping is written as the number of its entries, a `u64`, then each
/// entry: the name, then the value.
pub open spec fn enc_fields(fs: Fields) -> Seq<u8> {
    enc_u64(fs.len() as u64) + enc_items(fs, entry_encoder())
}

/// A mapping is read only where its names go up strictly.
pub open spec fn parse_fields(s: Seq<u8>) -> Option<(Fields, Seq<u8>)> {
    match parse_u64(s) {
        None => None,
        Some((n, rest)) => match parse_items(rest, n as nat, entry_parser()) {
            None => None,
            Some((fs, after)) => if fields_sorted(fs) {
                Some((fs, after))
            } else {
                None
            },
        },
    }
}

/// Reading the bytes of an entry of a mapping gives it back, whatever follows.
pub proof fn lemma_parse_enc_entry(e: (Seq<char>, FieldModel), rest: Seq<u8>)
    requires
        str_fits(e.0),
        field_valid(e.1),
    ensures
        parse_entry(enc_entry(e) + rest) == Some((e, rest)),
{
    assert(enc_entry(e) + rest =~= enc_str(e.0) + (enc_field(e.1) + rest));
    lemma_parse_enc_str(e.0, enc_field(e.1) + rest);
    lemma_parse_enc_field(e.1, rest);
}

/// What was read as an entry of a mapping stands written at the front.
pub proof fn lemma_enc_parse_entry(s: Seq<u8>)
    requires
        parse_entry(s) is Some,
    ensures
        str_fits((parse_entry(s)->0).0.0),
        field_valid((parse_entry(s)->0).0.1),
        s == enc_entry((parse_entry(s)->0).0) + (parse_entry(s)->0).1,
{
    lemma_enc_parse_str(s);
    let (name, rest) = parse_str(s)->0;
    lemma_enc_parse_field(rest);
    let (value, after) = parse_field(rest)->0;
    assert(s =~= enc_entry((name, value)) + after);
}

/// Reading the bytes of a mapping gives it back, whatever follows.
pub proof fn lemma_parse_enc_fields(fs: Fields, rest: Seq<u8>)
    requires
        fields_valid(fs),
    ensures
        parse_fields(enc_fields(fs) + rest) == Some((fs, rest)),
{
    let body = enc_items(fs, entry_encoder());
    assert(enc_fields(fs) + rest =~= enc_u64(fs.len() as u64) + (body + rest));
    lemma_parse_enc_u64(fs.len() as u64, body + rest);
    assert forall|i: int, r: Seq<u8>| 0 <= i < fs.len() implies #[trigger] entry_parser()(
        entry_encoder()(fs[i]) + r,
    ) == Some((fs[i], r)) by {
        assert(entry_encoder()(fs[i]) == enc_entry(fs[i]));
        lemma_parse_enc_entry(fs[i], r);
    }
    lemma_parse_enc_items(fs, entry_encoder(), entry_parser(), rest);
}

/// The first `n` entries can be stored.
pub open spec fn entries_fit(fs: Fields, n: int) -> bool {
    forall|j: int| 0 <= j < n ==> str_fits(#[trigger] fs[j].0) && field_valid(fs[j].1)
}

/// Appends the encoding of a mapping.
pub fn put_fields(out: &mut Vec<u8>, fields: &FieldMap)
    ensures
        final(out)@ == old(out)@ + enc_fields(fields@),
        fields_valid(fields@),
{
    let n = fields.len();
    put_u64(out, n as u64);
    let mut i: usize = 0;
    proof {
        assert(fields@.take(0) =~= Seq::<(Seq<char>, FieldModel)>::empty());
        assert(out@ =~= old(out)@ + enc_u64(n as u64) + enc_items(
            fields@.take(0),
            entry_encoder(),
        ));
    }
    while i < n
        invariant
            0 <= i <= n,
            n == fields@.len(),
            out@ == old(out)@ + enc_u64(n as u64) + enc_items(
                fields@.take(i as int),
                entry_encoder(),
            ),
            entries_fit(fields@, i as int),
        decreases n - i,
    {
        let (name, value) = fields.entry(i);
        let ghost before = out@;
        put_str(out, name.as_str());
        put_field(out, value);
        proof {
            assert(name@ == fields@[i as int].0 && value@ == fields@[i as int].1);
            assert(str_fits(fields@[i as int].0) && field_valid(fields@[i as int].1));
            assert(entries_fit(fields@, i + 1)) by {
                assert forall|j: int| 0 <= j < i + 1 implies str_fits(#[trigger] fields@[j].0)
                    && field_valid(fields@[j].1) by {
                    if j < i {
                        assert(entries_fit(fields@, i as int));
                    }
                }
            }
            lemma_enc_items_push(fields@.take(i as int), fields@[i as int], entry_encoder());
            assert(fields@.take(i + 1) =~= fields@.take(i as int).push(fields@[i as int]));
            assert(entry_encoder()(fields@[i as int]) == enc_entry(fields@[i as int]));
            assert(out@ =~= before + enc_entry(fields@[i as int]));
            assert(out@ =~= old(out)@ + enc_u64(n as u64) + enc_items(
                fields@.take(i + 1),
                entry_encoder(),
            ));
        }
        i += 1;
    }
    proof {
        assert(fields@.take(n as int) =~= fields@);
        assert(out@ =~= old(out)@ + enc_fields(fields@));
    }
}

/// Reads a mapping at `at`.
#[verifier::loop_isolation(false)]
pub fn take_fields(b: &[u8], at: usize) -> (r: Option<(FieldMap, usize)>)
    requires
        at <= b@.len(),
    ensures
        match r {
            Some((m, end)) => at <= end <= b@.len() && parse_fields(b@.skip(at as int)) == Some(
                (m@, b@.skip(end as int)),
            ),
            None => parse_fields(b@.skip(at as int)) is None,
        },
{
    let (n, start) = match take_u64(b, at) {
        Some(p) => p,
        None => { return None; },
    };
    let ghost s0 = b@.skip(start as int);
    let mut entries: Vec<(String, FieldValue)> = Vec::new();
    let mut pos: usize = start;
    let mut i: u64 = 0;
    proof {
        assert(entries_view(entries@) =~= Seq::<(Seq<char>, FieldModel)>::empty());
    }
    while i < n
        invariant
            0 <= i <= n,
            start <= pos <= b@.len(),
            s0 == b@.skip(start as int),
            entries@.len() == i,
            parse_items(s0, i as nat, entry_parser()) == Some(
                (entries_view(entries@), b@.skip(pos as int)),
            ),
        decreases n - i,
    {
        proof {
            lemma_parse_items_step(s0, i as nat, entry_parser());
            assert(entry_parser()(b@.skip(pos as int)) == parse_entry(b@.skip(pos as int)));
        }
        let (name, mid) = match take_str(b, pos) {
            Some(p) => p,
            None => {
                proof {
                    lemma_parse_items_none(s0, (i + 1) as nat, n as nat, entry_parser());
                }
                return None;
            },
        };
        let (value, end) = match take_field(b, mid) {
            Some(p) => p,
            None => {
                proof {
                    lemma_parse_items_none(s0, (i + 1) as nat, n as nat, entry_parser());
                }
                return None;
            },
        };
        let ghost prev = entries@;
        entries.push((name, value));
        proof {
            assert(entries_view(entries@) =~= entries_view(prev).push((name@, value@)));
        }
        pos = end;
        i += 1;
    }
    // the names must go up strictly
    let mut j: usize = 1;
    while j < entries.len()
        invariant
            1 <= j,
            forall|a: int, c: int|
                0 <= a < c < j && c < entries@.len() ==> key_lt(
                    #[trigger] entries_view(entries@)[a].0,
                    #[trigger] entries_view(entries@)[c].0,
                ),
        decreases entries@.len() - j,
    {
        if key_order(entries[j - 1].0.as_str(), entries[j].0.as_str()) != KeyOrder::Less {
            proof {
                let v = entries_view(entries@);
                assert(!key_lt(v[j - 1].0, v[j as int].0));
            }
            return None;
        }
        proof {
            let v = entries_view(entries@);
            assert forall|a: int, c: int| 0 <= a < c < j + 1 && c < entries@.len() implies key_lt(
                #[trigger] v[a].0,
                #[trigger] v[c].0,
            ) by {
                if c == j && a < j - 1 {
                    lemma_key_lt_transitive(v[a].0, v[j - 1].0, v[j as int].0);
                }
            }
        }
        j += 1;
    }
    Some((FieldMap { entries }, pos))
}

/// What can be stored of an entry, as a function value.
pub open spec fn entry_valid() -> spec_fn((Seq<char>, FieldModel)) -> bool {
    |e: (Seq<char>, FieldModel)| str_fits(e.0) && field_valid(e.1)
}

proof fn lemma_entry_parser_sound()
    ensures
        forall|b: Seq<u8>| #[trigger]
            entry_parser()(b) is Some ==> entry_valid()((entry_parser()(b)->0).0) && b
                == entry_encoder()((entry_parser()(b)->0).0) + (entry_parser()(b)->0).1,
{
    assert forall|b: Seq<u8>| #[trigger] entry_parser()(b) is Some implies entry_valid()(
        (entry_parser()(b)->0).0,
    ) && b == entry_encoder()((entry_parser()(b)->0).0) + (entry_parser()(b)->0).1 by {
        assert(entry_parser()(b) == parse_entry(b));
        lemma_enc_parse_entry(b);
    }
}

/// What was read as a mapping stands written at the front.
pub proof fn lemma_enc_parse_fields(s: Seq<u8>)
    requires
        parse_fields(s) is Some,
    ensures
        fields_valid((parse_fields(s)->0).0),
        s == enc_fields((parse_fields(s)->0).0) + (parse_fields(s)->0).1,
{
    lemma_enc_parse_u64(s);
    let (n, rest) = parse_u64(s)->0;
    lemma_entry_parser_sound();
    lemma_enc_parse_items(rest, n as nat, entry_encoder(), entry_parser(), entry_valid());
    let (fs, after) = parse_items(rest, n as nat, entry_parser())->0;
    assert(parse_fields(s) == Some((fs, after)));
    assert forall|i: int| 0 <= i < fs.len() implies str_fits(#[trigger] fs[i].0) && field_valid(
        fs[i].1,
    ) by {
        assert(entry_valid()(fs[i]));
    }
    assert(s =~= enc_fields(fs) + after);
}

} // verus!

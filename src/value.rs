use vstd::prelude::*;
use crate::chars::chars_of;

verus! {

broadcast use vstd::std_specs::vec::group_vec_axioms;

/// A decimal number `mantissa * 10^exponent`: a double held as its decimal digits
/// and the power of ten that scales them.
#[derive(Clone, Copy, Debug, Eq)]
pub struct Decimal {
    pub mantissa: i64,
    pub exponent: i32,
}

/// The normalised form of a decimal number: `digits` has no trailing zero, and
/// zero is written `0` with exponent `0` and no sign.
pub struct DecimalModel {
    pub negative: bool,
    pub digits: nat,
    pub exponent: int,
}

pub open spec fn magnitude(i: int) -> nat {
    if i < 0 {
        (-i) as nat
    } else {
        i as nat
    }
}

/// Drops trailing zero digits, raising the exponent to match.
pub open spec fn strip_zeros(n: nat, e: int) -> (nat, int)
    decreases n,
{
    if n != 0 && n % 10 == 0 {
        strip_zeros(n / 10, e + 1)
    } else {
        (n, e)
    }
}

/// The number that `d` stands for, in normalised form.
pub open spec fn decimal_model(d: Decimal) -> DecimalModel {
    let (n, e) = strip_zeros(magnitude(d.mantissa as int), d.exponent as int);
    if n == 0 {
        DecimalModel { negative: false, digits: 0, exponent: 0 }
    } else {
        DecimalModel { negative: d.mantissa < 0, digits: n, exponent: e }
    }
}

pub fn magnitude_of(i: i64) -> (r: u64)
    ensures
        r as int == magnitude(i as int),
{
    if i < 0 {
        (-(i as i128)) as u64
    } else {
        i as u64
    }
}

impl Decimal {
    /// The sign, the digits without trailing zeros, and the exponent of this number.
    pub fn normalized(&self) -> (r: (bool, u64, i128))
        ensures
            decimal_model(*self) == (DecimalModel {
                negative: r.0,
                digits: r.1 as nat,
                exponent: r.2 as int,
            }),
            -0x8000_0000 <= r.2 <= 0x7FFF_FFFF + 0xFFFF_FFFF_FFFF_FFFF,
    {
        let n0 = magnitude_of(self.mantissa);
        if n0 == 0 {
            return (false, 0, 0);
        }
        let mut n = n0;
        let mut e: i128 = self.exponent as i128;
        while n % 10 == 0
            invariant
                0 < n <= n0,
                self.exponent <= e,
                e - self.exponent <= n0 - n,
                strip_zeros(n as nat, e as int) == strip_zeros(n0 as nat, self.exponent as int),
            decreases n,
        {
            n = n / 10;
            e = e + 1;
        }
        (self.mantissa < 0, n, e)
    }
}

/// Two decimals are equal when they stand for the same number.
impl PartialEq for Decimal {
    fn eq(&self, o: &Decimal) -> (r: bool) {
        let (a_negative, a_digits, a_exponent) = self.normalized();
        let (b_negative, b_digits, b_exponent) = o.normalized();
        a_negative == b_negative && a_digits == b_digits && a_exponent == b_exponent
    }
}

impl vstd::std_specs::cmp::PartialEqSpecImpl for Decimal {
    open spec fn obeys_eq_spec() -> bool {
        true
    }

    open spec fn eq_spec(&self, o: &Decimal) -> bool {
        decimal_model(*self) == decimal_model(*o)
    }
}

/// A JSON-like value.
#[derive(Debug, PartialEq)]
pub enum Json {
    Object(JsonObject),
    Array(Vec<Json>),
    I64(i64),
    Double(Decimal),
    String(String),
    Boolean(bool),
    Null,
}

/// The entries of an object, kept in strictly ascending key order.
#[derive(Debug, PartialEq)]
pub struct JsonObject {
    entries: Vec<(String, Json)>,
}

/// The mathematical form of a value; an object is its entries in ascending key order.
pub enum JsonModel {
    Object(Seq<(Seq<char>, JsonModel)>),
    Array(Seq<JsonModel>),
    I64(i64),
    Double(DecimalModel),
    String(Seq<char>),
    Boolean(bool),
    Null,
}

/// Lexicographic order on keys, by code point (the order of `String`'s `Ord`).
pub open spec fn key_lt(a: Seq<char>, b: Seq<char>) -> bool
    decreases a.len(),
{
    if a.len() == 0 {
        b.len() > 0
    } else if b.len() == 0 {
        false
    } else if a[0] != b[0] {
        (a[0] as u32) < (b[0] as u32)
    } else {
        key_lt(a.drop_first(), b.drop_first())
    }
}

/// The first position of `key` among the entries, if any.
pub open spec fn find_key<V>(entries: Seq<(Seq<char>, V)>, key: Seq<char>) -> Option<int>
    decreases entries.len(),
{
    if entries.len() == 0 {
        None
    } else if entries[0].0 == key {
        Some(0)
    } else {
        match find_key(entries.drop_first(), key) {
            Some(i) => Some(i + 1),
            None => None,
        }
    }
}

pub open spec fn models_of(s: Seq<Json>) -> Seq<JsonModel>
    decreases s,
{
    if s.len() == 0 {
        Seq::empty()
    } else {
        models_of(s.drop_last()).push(s.last().view())
    }
}

pub open spec fn entry_models_of(s: Seq<(String, Json)>) -> Seq<(Seq<char>, JsonModel)>
    decreases s,
{
    if s.len() == 0 {
        Seq::empty()
    } else {
        entry_models_of(s.drop_last()).push((s.last().0@, s.last().1.view()))
    }
}


/// Each key is below the next one.
pub open spec fn ascending<V>(e: Seq<(Seq<char>, V)>) -> bool {
    forall|i: int| 0 <= i < e.len() - 1 ==> key_lt(#[trigger] e[i].0, e[i + 1].0)
}

pub proof fn lemma_key_lt_irreflexive(a: Seq<char>)
    ensures
        !key_lt(a, a),
    decreases a.len(),
{
    if a.len() > 0 {
        lemma_key_lt_irreflexive(a.drop_first());
    }
}

pub proof fn lemma_key_lt_total(a: Seq<char>, b: Seq<char>)
    ensures
        a == b || key_lt(a, b) || key_lt(b, a),
    decreases a.len(),
{
    if a.len() > 0 && b.len() > 0 && a[0] == b[0] {
        lemma_key_lt_total(a.drop_first(), b.drop_first());
        if a.drop_first() == b.drop_first() {
            assert(a =~= seq![a[0]] + a.drop_first());
            assert(b =~= seq![b[0]] + b.drop_first());
        }
    } else if a.len() > 0 && b.len() > 0 {
        vstd::utf8::char_u32_cast(a[0], a[0] as u32);
        vstd::utf8::char_u32_cast(b[0], b[0] as u32);
    } else if a.len() == 0 && b.len() == 0 {
        assert(a =~= b);
    }
}

proof fn lemma_key_lt_skip(a: Seq<char>, b: Seq<char>, i: int)
    requires
        0 <= i <= a.len(),
        i <= b.len(),
        a.take(i) == b.take(i),
    ensures
        key_lt(a, b) == key_lt(a.skip(i), b.skip(i)),
    decreases i,
{
    if i > 0 {
        assert(a[0] == a.take(i)[0]);
        assert(b[0] == b.take(i)[0]);
        assert(a.drop_first().take(i - 1) =~= a.take(i).drop_first());
        assert(b.drop_first().take(i - 1) =~= b.take(i).drop_first());
        lemma_key_lt_skip(a.drop_first(), b.drop_first(), i - 1);
        assert(a.drop_first().skip(i - 1) =~= a.skip(i));
        assert(b.drop_first().skip(i - 1) =~= b.skip(i));
    } else {
        assert(a.skip(0) =~= a);
        assert(b.skip(0) =~= b);
    }
}

/// Compares two keys in the order of `key_lt`.
pub fn key_less(a: &str, b: &str) -> (r: bool)
    ensures
        r == key_lt(a@, b@),
{
    let x = chars_of(a);
    let y = chars_of(b);
    let mut i: usize = 0;
    while i < x.len() && i < y.len()
        invariant
            x@ == a@,
            y@ == b@,
            0 <= i <= x@.len(),
            i <= y@.len(),
            x@.take(i as int) == y@.take(i as int),
        decreases x@.len() - i,
    {
        if x[i] != y[i] {
            proof {
                lemma_key_lt_skip(x@, y@, i as int);
                assert(x@.skip(i as int)[0] == x@[i as int]);
                assert(y@.skip(i as int)[0] == y@[i as int]);
            }
            return (x[i] as u32) < (y[i] as u32);
        }
        assert(x@.take(i + 1) =~= x@.take(i as int).push(x@[i as int]));
        assert(y@.take(i + 1) =~= y@.take(i as int).push(y@[i as int]));
        i = i + 1;
    }
    proof {
        lemma_key_lt_skip(x@, y@, i as int);
    }
    i < y.len()
}


pub proof fn lemma_key_lt_transitive(a: Seq<char>, b: Seq<char>, c: Seq<char>)
    requires
        key_lt(a, b),
        key_lt(b, c),
    ensures
        key_lt(a, c),
    decreases a.len(),
{
    if a.len() > 0 && b.len() > 0 && c.len() > 0 && a[0] == b[0] && b[0] == c[0] {
        lemma_key_lt_transitive(a.drop_first(), b.drop_first(), c.drop_first());
    }
}

/// In an ascending sequence every key is below every later one.
pub proof fn lemma_ascending_all<V>(e: Seq<(Seq<char>, V)>)
    requires
        ascending(e),
    ensures
        forall|i: int, j: int| 0 <= i < j < e.len() ==> key_lt(#[trigger] e[i].0, #[trigger] e[j].0),
{
    assert forall|i: int, j: int| 0 <= i < j < e.len() implies key_lt(#[trigger] e[i].0, #[trigger] e[j].0) by {
        lemma_ascending_range(e, i, j);
    }
}

proof fn lemma_ascending_range<V>(e: Seq<(Seq<char>, V)>, i: int, j: int)
    requires
        ascending(e),
        0 <= i < j < e.len(),
    ensures
        key_lt(e[i].0, e[j].0),
    decreases j - i,
{
    if j > i + 1 {
        lemma_ascending_range(e, i, j - 1);
        lemma_key_lt_transitive(e[i].0, e[j - 1].0, e[j].0);
    }
}

proof fn lemma_find_key_at<V>(e: Seq<(Seq<char>, V)>, key: Seq<char>, i: int)
    requires
        0 <= i < e.len(),
        e[i].0 == key,
        forall|j: int| 0 <= j < i ==> #[trigger] e[j].0 != key,
    ensures
        find_key(e, key) == Some(i),
    decreases i,
{
    if i > 0 {
        assert(e[0].0 != key);
        lemma_find_key_at(e.drop_first(), key, i - 1);
    }
}

/// `find_key` gives the position of the first entry with that key.
pub proof fn lemma_find_key<V>(e: Seq<(Seq<char>, V)>, key: Seq<char>)
    ensures
        match find_key(e, key) {
            Some(i) => 0 <= i < e.len() && e[i].0 == key && forall|j: int|
                0 <= j < i ==> #[trigger] e[j].0 != key,
            None => forall|j: int| 0 <= j < e.len() ==> #[trigger] e[j].0 != key,
        },
    decreases e.len(),
{
    if e.len() > 0 && e[0].0 != key {
        lemma_find_key(e.drop_first(), key);
        match find_key(e.drop_first(), key) {
            Some(i) => {
                assert forall|j: int| 0 <= j < i + 1 implies #[trigger] e[j].0 != key by {
                    if j > 0 {
                        assert(e[j] == e.drop_first()[j - 1]);
                    }
                }
            },
            None => {
                assert forall|j: int| 0 <= j < e.len() implies #[trigger] e[j].0 != key by {
                    if j > 0 {
                        assert(e[j] == e.drop_first()[j - 1]);
                    }
                }
            },
        }
    }
}

proof fn lemma_find_key_absent<V>(e: Seq<(Seq<char>, V)>, key: Seq<char>)
    requires
        forall|j: int| 0 <= j < e.len() ==> #[trigger] e[j].0 != key,
    ensures
        find_key(e, key) is None,
{
    lemma_find_key(e, key);
}

proof fn lemma_find_key_prefix<V>(e: Seq<(Seq<char>, V)>, key: Seq<char>, i: int)
    requires
        0 <= i <= e.len(),
        forall|j: int| 0 <= j < i ==> key_lt(#[trigger] e[j].0, key),
    ensures
        forall|j: int| 0 <= j < i ==> #[trigger] e[j].0 != key,
{
    lemma_key_lt_irreflexive(key);
}

pub proof fn lemma_models_of(s: Seq<Json>)
    ensures
        models_of(s).len() == s.len(),
        forall|i: int| 0 <= i < s.len() ==> #[trigger] models_of(s)[i] == s[i]@,
    decreases s.len(),
{
    if s.len() > 0 {
        assert(models_of(s) == models_of(s.drop_last()).push(s.last().view()));
        lemma_models_of(s.drop_last());
    } else {
        assert(models_of(s) == Seq::<JsonModel>::empty());
    }
}

pub proof fn lemma_entry_models_of(s: Seq<(String, Json)>)
    ensures
        entry_models_of(s).len() == s.len(),
        forall|i: int|
            0 <= i < s.len() ==> #[trigger] entry_models_of(s)[i] == (s[i].0@, s[i].1@),
    decreases s.len(),
{
    if s.len() > 0 {
        assert(entry_models_of(s) == entry_models_of(s.drop_last()).push(
            (s.last().0@, s.last().1.view()),
        ));
        lemma_entry_models_of(s.drop_last());
    } else {
        assert(entry_models_of(s) == Seq::<(Seq<char>, JsonModel)>::empty());
    }
}

impl JsonObject {
    #[verifier::type_invariant]
    spec fn inv(self) -> bool {
        ascending(self@)
    }

    /// An object with no entries.
    pub fn new() -> (r: JsonObject)
        ensures
            r@ == Seq::<(Seq<char>, JsonModel)>::empty(),
    {
        let r = JsonObject { entries: Vec::new() };
        assert(r@ =~= Seq::<(Seq<char>, JsonModel)>::empty());
        r
    }

    /// Sets the value of `key`, keeping the keys in ascending order.
    pub fn insert(&mut self, key: String, value: Json)
        ensures
            insert_post(old(self)@, key@, value@, final(self)@),
            ascending(final(self)@),
    {
        let mut taken = JsonObject::new();
        core::mem::swap(self, &mut taken);
        proof {
            use_type_invariant(&taken);
        }
        let JsonObject { entries: mut e } = taken;
        insert_entry(&mut e, key, value);
        *self = JsonObject { entries: e };
    }
}

/// What inserting `(key, value)` into `m` gives: the value of an existing key is
/// replaced in place; a new key is inserted at some position.
pub open spec fn insert_post(
    m: Seq<(Seq<char>, JsonModel)>,
    key: Seq<char>,
    value: JsonModel,
    r: Seq<(Seq<char>, JsonModel)>,
) -> bool {
    match find_key(m, key) {
        Some(i) => r == m.update(i, (key, value)),
        None => exists|p: int| 0 <= p <= m.len() && r == m.insert(p, (key, value)),
    }
}

#[verifier::rlimit(40)]
fn insert_entry(e: &mut Vec<(String, Json)>, key: String, value: Json)
    requires
        ascending(entry_models_of(old(e)@)),
    ensures
        insert_post(entry_models_of(old(e)@), key@, value@, entry_models_of(final(e)@)),
        ascending(entry_models_of(final(e)@)),
{
    let ghost m = entry_models_of(e@);
    proof {
        lemma_entry_models_of(e@);
    }
    let mut i: usize = 0;
    while i < e.len() && key_less(e[i].0.as_str(), key.as_str())
        invariant
            m == entry_models_of(e@),
            m.len() == e@.len(),
            ascending(m),
            0 <= i <= m.len(),
            forall|j: int| 0 <= j < i ==> key_lt(#[trigger] m[j].0, key@),
            forall|j: int| 0 <= j < e@.len() ==> #[trigger] m[j] == (e@[j].0@, e@[j].1@),
        decreases m.len() - i,
    {
        i = i + 1;
    }
    proof {
        lemma_find_key_prefix(m, key@, i as int);
    }
    if i < e.len() && e[i].0 == key {
        proof {
            lemma_find_key_at(m, key@, i as int);
        }
        e.set(i, (key, value));
        proof {
            lemma_entry_models_of(e@);
            let n = m.update(i as int, (key@, value@));
            assert(entry_models_of(e@) =~= n);
            assert forall|j: int| 0 <= j < n.len() - 1 implies key_lt(#[trigger] n[j].0, n[j + 1].0) by {
                assert(n[j].0 == m[j].0);
                assert(n[j + 1].0 == m[j + 1].0);
            }
        }
    } else {
        proof {
            if i < m.len() {
                lemma_key_lt_total(key@, m[i as int].0);
                assert(key_lt(key@, m[i as int].0));
                lemma_ascending_all(m);
                assert forall|j: int| i <= j < m.len() implies m[j].0 != key@ by {
                    if j > i {
                        lemma_key_lt_transitive(key@, m[i as int].0, m[j].0);
                    }
                    lemma_key_lt_irreflexive(key@);
                }
            }
            lemma_find_key_absent(m, key@);
        }
        e.insert(i, (key, value));
        proof {
            lemma_entry_models_of(e@);
            let n = m.insert(i as int, (key@, value@));
            assert(entry_models_of(e@) =~= n);
            assert forall|j: int| 0 <= j < n.len() - 1 implies key_lt(#[trigger] n[j].0, n[j + 1].0) by {
                if j < i - 1 {
                    assert(n[j] == m[j] && n[j + 1] == m[j + 1]);
                } else if j == i - 1 {
                    assert(n[j] == m[j] && n[j + 1].0 == key@);
                } else if j == i {
                    assert(n[j].0 == key@ && n[j + 1] == m[j]);
                } else {
                    assert(n[j] == m[j - 1] && n[j + 1] == m[j]);
                }
            }
        }
    }
}

impl JsonObject {
    /// The number of entries.
    pub fn len(&self) -> (r: usize)
        ensures
            r == self@.len(),
    {
        proof {
            lemma_entry_models_of(self.entries@);
        }
        self.entries.len()
    }

    /// The key of the `i`-th entry in ascending order.
    pub fn key_at(&self, i: usize) -> (r: &String)
        requires
            i < self@.len(),
        ensures
            r@ == self@[i as int].0,
    {
        proof {
            lemma_entry_models_of(self.entries@);
        }
        &self.entries[i].0
    }

    /// The value of the `i`-th entry in ascending order.
    pub fn value_at(&self, i: usize) -> (r: &Json)
        requires
            i < self@.len(),
        ensures
            r@ == self@[i as int].1,
            decreases_to!(*self => *r),
    {
        proof {
            lemma_entry_models_of(self.entries@);
            assert(decreases_to!(self.entries => self.entries[i as int]));
        }
        &self.entries[i].1
    }

    /// The position of `key`, if the object has it.
    pub fn find(&self, key: &str) -> (r: Option<usize>)
        ensures
            match r {
                Some(p) => find_key(self@, key@) == Some(p as int) && p < self@.len(),
                None => find_key(self@, key@) is None,
            },
    {
        proof {
            lemma_entry_models_of(self.entries@);
        }
        let mut i: usize = 0;
        while i < self.entries.len()
            invariant
                0 <= i <= self@.len(),
                self@.len() == self.entries@.len(),
                forall|j: int| 0 <= j < self.entries@.len() ==> #[trigger] self@[j] == (
                    self.entries@[j].0@,
                    self.entries@[j].1@,
                ),
                forall|j: int| 0 <= j < i ==> #[trigger] self@[j].0 != key@,
            decreases self@.len() - i,
        {
            if key_equal(self.entries[i].0.as_str(), key) {
                proof {
                    lemma_find_key_at(self@, key@, i as int);
                }
                return Some(i);
            }
            i = i + 1;
        }
        proof {
            lemma_find_key_absent(self@, key@);
        }
        None
    }

    /// A copy with equal contents.
    pub fn copy(&self) -> (r: JsonObject)
        ensures
            r@ == self@,
        decreases self,
    {
        proof {
            use_type_invariant(self);
            lemma_entry_models_of(self.entries@);
        }
        let mut out: Vec<(String, Json)> = Vec::new();
        let mut i: usize = 0;
        while i < self.entries.len()
            invariant
                0 <= i <= self.entries@.len(),
                self@.len() == self.entries@.len(),
                entry_models_of(out@) == self@.take(i as int),
                forall|j: int| 0 <= j < self.entries@.len() ==> #[trigger] self@[j] == (
                    self.entries@[j].0@,
                    self.entries@[j].1@,
                ),
            decreases self.entries@.len() - i,
        {
            let k = self.entries[i].0.clone();
            assert(decreases_to!(self.entries => self.entries[i as int]));
            let v = self.entries[i].1.copy();
            let ghost before = out@;
            out.push((k, v));
            proof {
                assert(out@.drop_last() == before);
                assert(self@.take(i + 1) =~= self@.take(i as int).push(self@[i as int]));
            }
            i = i + 1;
        }
        assert(self@.take(i as int) =~= self@);
        JsonObject { entries: out }
    }
}

/// Whether two keys are the same text.
pub fn key_equal(a: &str, b: &str) -> (r: bool)
    ensures
        r == (a@ == b@),
{
    let x = chars_of(a);
    let y = chars_of(b);
    if x.len() != y.len() {
        return false;
    }
    let mut i: usize = 0;
    while i < x.len()
        invariant
            x@ == a@,
            y@ == b@,
            x@.len() == y@.len(),
            0 <= i <= x@.len(),
            x@.take(i as int) == y@.take(i as int),
        decreases x@.len() - i,
    {
        if x[i] != y[i] {
            return false;
        }
        assert(x@.take(i + 1) =~= x@.take(i as int).push(x@[i as int]));
        assert(y@.take(i + 1) =~= y@.take(i as int).push(y@[i as int]));
        i = i + 1;
    }
    assert(x@.take(i as int) =~= x@);
    assert(y@.take(i as int) =~= y@);
    true
}

/// The keys of an object, in ascending order.
pub fn get_sorted_keys(m: &JsonObject) -> (r: Vec<String>)
    ensures
        r@.len() == m@.len(),
        forall|i: int| 0 <= i < r@.len() ==> #[trigger] r@[i]@ == m@[i].0,
        forall|i: int| 0 <= i < r@.len() - 1 ==> key_lt(#[trigger] r@[i]@, r@[i + 1]@),
{
    proof {
        use_type_invariant(m);
    }
    let mut keys: Vec<String> = Vec::new();
    let mut i: usize = 0;
    let n = m.len();
    while i < n
        invariant
            n == m@.len(),
            0 <= i <= n,
            keys@.len() == i,
            forall|j: int| 0 <= j < i ==> #[trigger] keys@[j]@ == m@[j].0,
        decreases n - i,
    {
        keys.push(m.key_at(i).clone());
        i = i + 1;
    }
    keys
}

impl Json {
    /// A copy with equal contents.
    pub fn copy(&self) -> (r: Json)
        ensures
            r@ == self@,
        decreases self,
    {
        match self {
            Json::Object(o) => Json::Object(o.copy()),
            Json::Array(v) => Json::Array(copy_all(v)),
            Json::I64(i) => Json::I64(*i),
            Json::Double(d) => Json::Double(*d),
            Json::String(s) => Json::String(s.clone()),
            Json::Boolean(b) => Json::Boolean(*b),
            Json::Null => Json::Null,
        }
    }
}

/// Copies every element, in order.
pub fn copy_all(v: &Vec<Json>) -> (r: Vec<Json>)
    ensures
        models_of(r@) == models_of(v@),
    decreases v,
{
    proof {
        lemma_models_of(v@);
    }
    let mut out: Vec<Json> = Vec::new();
    let mut i: usize = 0;
    while i < v.len()
        invariant
            0 <= i <= v@.len(),
            models_of(out@) == models_of(v@).take(i as int),
            models_of(v@).len() == v@.len(),
            forall|j: int| 0 <= j < v@.len() ==> #[trigger] models_of(v@)[j] == v@[j]@,
        decreases v@.len() - i,
    {
        let c = v[i].copy();
        let ghost before = out@;
        out.push(c);
        proof {
            assert(out@.drop_last() == before);
            assert(models_of(v@).take(i + 1) =~= models_of(v@).take(i as int).push(v@[i as int]@));
        }
        i = i + 1;
    }
    assert(models_of(v@).take(i as int) =~= models_of(v@));
    out
}

impl Clone for Json {
    fn clone(&self) -> (r: Json)
        ensures
            r@ == self@,
    {
        self.copy()
    }
}

impl Clone for JsonObject {
    fn clone(&self) -> (r: JsonObject)
        ensures
            r@ == self@,
    {
        self.copy()
    }
}

impl View for Json {
    type V = JsonModel;

    open spec fn view(&self) -> JsonModel
        decreases self,
    {
        match self {
            Json::Object(o) => JsonModel::Object(o.view()),
            Json::Array(v) => JsonModel::Array(models_of(v@)),
            Json::I64(i) => JsonModel::I64(*i),
            Json::Double(d) => JsonModel::Double(decimal_model(*d)),
            Json::String(s) => JsonModel::String(s@),
            Json::Boolean(b) => JsonModel::Boolean(*b),
            Json::Null => JsonModel::Null,
        }
    }
}

impl View for JsonObject {
    type V = Seq<(Seq<char>, JsonModel)>;

    closed spec fn view(&self) -> Seq<(Seq<char>, JsonModel)>
        decreases self,
    {
        entry_models_of(self.entries@)
    }
}

} // verus!

use vstd::prelude::*;

verus! {

/// An unsigned 64-bit integer held by a value.
#[derive(PartialEq, Eq, Structural, Debug, Clone, Copy)]
pub struct IntegerValue {
    pub value: u64,
}

impl IntegerValue {
    pub fn new(val: u64) -> (r: Self)
        ensures
            r.value == val,
    {
        IntegerValue { value: val }
    }
}

/// The decimal digits of `n`, most significant first, without leading zeros.
pub open spec fn decimal_digits(n: nat) -> Seq<char>
    decreases n,
{
    let d = digit_char(n % 10);
    if n < 10 {
        seq![d]
    } else {
        decimal_digits(n / 10).push(d)
    }
}

pub open spec fn digit_char(d: nat) -> char {
    if d == 0 { '0' } else if d == 1 { '1' } else if d == 2 { '2' } else if d == 3 { '3' } else if d
        == 4 { '4' } else if d == 5 { '5' } else if d == 6 { '6' } else if d == 7 { '7' } else if d
        == 8 { '8' } else { '9' }
}

/// Relies on u64's `to_string`: the number's decimal digits.
#[verifier::external_body]
fn u64_text(n: u64) -> (r: String)
    ensures
        r@ == decimal_digits(n as nat),
{
    n.to_string()
}

impl IntegerValue {
    /// The number in decimal.
    pub fn to_text(&self) -> (r: String)
        ensures
            r@ == decimal_digits(self.value as nat),
    {
        u64_text(self.value)
    }
}

impl From<i32> for IntegerValue {
    fn from(value: i32) -> (r: Self) {
        IntegerValue { value: value as u64 }
    }
}

impl vstd::std_specs::convert::FromSpecImpl<i32> for IntegerValue {
    open spec fn obeys_from_spec() -> bool {
        true
    }

    open spec fn from_spec(v: i32) -> IntegerValue {
        IntegerValue { value: v as u64 }
    }
}

/// A UTF-8 string held by a value.
#[derive(Debug)]
pub struct StringValue {
    pub value: String,
}

impl StringValue {
    pub fn new(val: &str) -> (r: Self)
        ensures
            r.value@ == val@,
    {
        StringValue { value: val.to_owned() }
    }

    pub fn duplicate(&self) -> (r: Self)
        ensures
            r.value@ == self.value@,
    {
        StringValue { value: self.value.clone() }
    }

    /// The string itself.
    pub fn to_text(&self) -> (r: String)
        ensures
            r@ == self.value@,
    {
        self.value.clone()
    }
}

impl From<&str> for StringValue {
    fn from(value: &str) -> (r: Self) {
        StringValue::new(value)
    }
}

impl vstd::std_specs::convert::FromSpecImpl<&str> for StringValue {
    open spec fn obeys_from_spec() -> bool {
        false
    }

    open spec fn from_spec(v: &str) -> StringValue {
        arbitrary()
    }
}

impl PartialEq for StringValue {
    fn eq(&self, o: &StringValue) -> (r: bool) {
        self.value == o.value
    }
}

impl vstd::std_specs::cmp::PartialEqSpecImpl for StringValue {
    open spec fn obeys_eq_spec() -> bool {
        true
    }

    open spec fn eq_spec(&self, o: &StringValue) -> bool {
        self.value@ == o.value@
    }
}

/// The mathematical content of a value: strings as characters, maps as
/// their entries in stored order.
pub ghost enum ValueView {
    Str(Seq<char>),
    Int(u64),
    Dict(Seq<(Seq<char>, ValueView)>),
    Absent,
}

/// A value of the store.
#[derive(Debug)]
pub enum Value {
    String(StringValue),
    Integer(IntegerValue),
    Dict(ValueMap),
    Nil,
}

/// One key and its value inside a map value.
#[derive(Debug)]
pub struct MapEntry {
    pub key: String,
    pub value: Value,
}

/// A map from string keys to values; no key occurs twice.
#[derive(Debug)]
pub struct ValueMap {
    entries: Vec<MapEntry>,
}

/// The index of the last entry with key `k`, or -1 when there is none.
pub open spec fn find_key(es: Seq<(Seq<char>, ValueView)>, k: Seq<char>) -> int
    decreases es.len(),
{
    if es.len() == 0 {
        -1
    } else if es.last().0 == k {
        es.len() - 1
    } else {
        find_key(es.drop_last(), k)
    }
}

/// No two entries share a key.
pub open spec fn unique_keys(es: Seq<(Seq<char>, ValueView)>) -> bool {
    forall|i: int, j: int| 0 <= i < j < es.len() ==> es[i].0 != es[j].0
}

/// The entries read as a finite map from key to value.
pub open spec fn as_map(es: Seq<(Seq<char>, ValueView)>) -> Map<Seq<char>, ValueView> {
    Map::new(|k: Seq<char>| find_key(es, k) >= 0, |k: Seq<char>| es[find_key(es, k)].1)
}

/// The entries after setting `k` to `v`: the entry with key `k` is replaced in
/// place, or a new one is added at the end.
pub open spec fn entries_set(es: Seq<(Seq<char>, ValueView)>, k: Seq<char>, v: ValueView) -> Seq<
    (Seq<char>, ValueView),
> {
    let i = find_key(es, k);
    if i >= 0 {
        es.update(i, (k, v))
    } else {
        es.push((k, v))
    }
}

/// The entries after removing key `k`.
pub open spec fn entries_remove(es: Seq<(Seq<char>, ValueView)>, k: Seq<char>) -> Seq<
    (Seq<char>, ValueView),
> {
    let i = find_key(es, k);
    if i >= 0 {
        es.remove(i)
    } else {
        es
    }
}

pub open spec fn entry_views(es: Seq<MapEntry>) -> Seq<(Seq<char>, ValueView)>
    decreases es,
{
    if es.len() == 0 {
        Seq::empty()
    } else {
        seq![(es[0].key@, es[0].value.view())] + entry_views(es.subrange(1, es.len() as int))
    }
}

impl Value {
    pub open spec fn view(&self) -> ValueView
        decreases self,
    {
        match self {
            Value::String(s) => ValueView::Str(s.value@),
            Value::Integer(n) => ValueView::Int(n.value),
            Value::Dict(m) => ValueView::Dict(m.view()),
            Value::Nil => ValueView::Absent,
        }
    }
}

pub proof fn lemma_find_key_range(es: Seq<(Seq<char>, ValueView)>, k: Seq<char>)
    ensures
        -1 <= find_key(es, k) < es.len(),
        find_key(es, k) >= 0 ==> es[find_key(es, k)].0 == k,
        find_key(es, k) < 0 ==> forall|i: int| 0 <= i < es.len() ==> es[i].0 != k,
    decreases es.len(),
{
    if es.len() > 0 && es.last().0 != k {
        lemma_find_key_range(es.drop_last(), k);
        assert forall|i: int| 0 <= i < es.len() - 1 implies es[i] == es.drop_last()[i] by {}
    }
}

proof fn lemma_find_key_is(es: Seq<(Seq<char>, ValueView)>, k: Seq<char>, i: int)
    requires
        0 <= i < es.len(),
        es[i].0 == k,
        forall|j: int| i < j < es.len() ==> es[j].0 != k,
    ensures
        find_key(es, k) == i,
    decreases es.len(),
{
    if i < es.len() - 1 {
        let d = es.drop_last();
        assert forall|j: int| i < j < d.len() implies d[j].0 != k by {
            assert(d[j] == es[j]);
        }
        lemma_find_key_is(d, k, i);
    }
}

proof fn lemma_find_key_last(es: Seq<(Seq<char>, ValueView)>, k: Seq<char>)
    ensures
        forall|j: int| find_key(es, k) < j < es.len() ==> es[j].0 != k,
    decreases es.len(),
{
    if es.len() > 0 && es.last().0 != k {
        let d = es.drop_last();
        lemma_find_key_last(d, k);
        lemma_find_key_range(es, k);
        assert(find_key(es, k) == find_key(d, k));
        assert forall|j: int| find_key(es, k) < j < es.len() implies es[j].0 != k by {
            if j < es.len() - 1 {
                assert(d[j] == es[j]);
            }
        }
    }
}

/// After setting `k` to `v`, the entries map `k` to `v`.
pub proof fn lemma_set_then_lookup(es: Seq<(Seq<char>, ValueView)>, k: Seq<char>, v: ValueView)
    ensures
        as_map(entries_set(es, k, v)).contains_key(k),
        as_map(entries_set(es, k, v))[k] == v,
{
    let r = entries_set(es, k, v);
    lemma_find_key_range(es, k);
    let i = find_key(es, k);
    if i >= 0 {
        lemma_find_key_last(es, k);
        assert forall|j: int| i < j < r.len() implies r[j].0 != k by {
            assert(r[j] == es[j]);
        }
        lemma_find_key_is(r, k, i);
    } else {
        lemma_find_key_is(r, k, es.len() as int);
    }
}

/// Entries with distinct keys map exactly as many keys as there are entries.
pub proof fn lemma_as_map_len(es: Seq<(Seq<char>, ValueView)>)
    requires
        unique_keys(es),
    ensures
        as_map(es).dom().finite(),
        as_map(es).dom().len() == es.len(),
    decreases es.len(),
{
    if es.len() == 0 {
        assert(as_map(es).dom() =~= Set::<Seq<char>>::empty());
    } else {
        let d = es.drop_last();
        let x = es.last();
        assert(unique_keys(d)) by {
            assert forall|i: int, j: int| 0 <= i < j < d.len() implies d[i].0 != d[j].0 by {
                assert(d[i] == es[i] && d[j] == es[j]);
            }
        }
        lemma_as_map_len(d);
        lemma_find_key_range(d, x.0);
        if find_key(d, x.0) >= 0 {
            assert(d[find_key(d, x.0)] == es[find_key(d, x.0)]);
        }
        assert forall|k: Seq<char>| #[trigger] find_key(es, k) == (if k == x.0 {
            es.len() - 1
        } else {
            find_key(d, k)
        }) by {}
        assert forall|k: Seq<char>| k != x.0 && find_key(d, k) >= 0 implies #[trigger] es[find_key(
            d,
            k,
        )] == d[find_key(d, k)] by {
            lemma_find_key_range(d, k);
        }
        assert(as_map(es) =~= as_map(d).insert(x.0, x.1));
        assert(as_map(es).dom() =~= as_map(d).dom().insert(x.0));
    }
}

proof fn lemma_find_key_unique(es: Seq<(Seq<char>, ValueView)>, k: Seq<char>, i: int)
    requires
        unique_keys(es),
        0 <= i < es.len(),
        es[i].0 == k,
    ensures
        find_key(es, k) == i,
{
    lemma_find_key_range(es, k);
}

pub proof fn lemma_entries_set(es: Seq<(Seq<char>, ValueView)>, k: Seq<char>, v: ValueView)
    requires
        unique_keys(es),
    ensures
        unique_keys(entries_set(es, k, v)),
        as_map(entries_set(es, k, v)) == as_map(es).insert(k, v),
{
    let r = entries_set(es, k, v);
    lemma_find_key_range(es, k);
    assert(unique_keys(r));
    assert forall|k2: Seq<char>| #[trigger] find_key(r, k2) >= 0 <==> (k2 == k || find_key(es, k2) >= 0) by {
        lemma_find_key_range(r, k2);
        lemma_find_key_range(es, k2);
        if k2 == k {
            if find_key(es, k) >= 0 {
                lemma_find_key_unique(r, k, find_key(es, k));
            } else {
                lemma_find_key_unique(r, k, es.len() as int);
            }
        } else if find_key(es, k2) >= 0 {
            lemma_find_key_unique(r, k2, find_key(es, k2));
        }
    }
    assert forall|k2: Seq<char>| find_key(r, k2) >= 0 implies #[trigger] r[find_key(r, k2)].1 == (
    if k2 == k { v } else { es[find_key(es, k2)].1 }) by {
        lemma_find_key_range(r, k2);
        lemma_find_key_range(es, k2);
        if k2 == k {
            if find_key(es, k) >= 0 {
                lemma_find_key_unique(r, k, find_key(es, k));
            } else {
                lemma_find_key_unique(r, k, es.len() as int);
            }
        } else {
            lemma_find_key_unique(r, k2, find_key(es, k2));
        }
    }
    assert(as_map(r) =~= as_map(es).insert(k, v));
}

pub proof fn lemma_entries_remove(es: Seq<(Seq<char>, ValueView)>, k: Seq<char>)
    requires
        unique_keys(es),
    ensures
        unique_keys(entries_remove(es, k)),
        as_map(entries_remove(es, k)) == as_map(es).remove(k),
{
    let r = entries_remove(es, k);
    lemma_find_key_range(es, k);
    let i = find_key(es, k);
    assert(unique_keys(r)) by {
        if i >= 0 {
            assert forall|a: int, b: int| 0 <= a < b < r.len() implies r[a].0 != r[b].0 by {
                let a2 = if a < i { a } else { a + 1 };
                let b2 = if b < i { b } else { b + 1 };
                assert(r[a] == es[a2]);
                assert(r[b] == es[b2]);
            }
        }
    }
    assert forall|k2: Seq<char>| #[trigger] find_key(r, k2) >= 0 <==> (k2 != k && find_key(es, k2) >= 0) by {
        lemma_find_key_range(r, k2);
        lemma_find_key_range(es, k2);
        if k2 != k && find_key(es, k2) >= 0 {
            let j = find_key(es, k2);
            if i >= 0 {
                let j2 = if j < i { j } else { j - 1 };
                assert(r[j2] == es[j]);
                lemma_find_key_unique(r, k2, j2);
            } else {
                lemma_find_key_unique(r, k2, j);
            }
        }
        if find_key(r, k2) >= 0 {
            let j = find_key(r, k2);
            if i >= 0 {
                let j2 = if j < i { j } else { j + 1 };
                assert(r[j] == es[j2]);
            } else {
                assert(r[j] == es[j]);
            }
        }
    }
    assert forall|k2: Seq<char>| find_key(r, k2) >= 0 implies #[trigger] r[find_key(r, k2)].1
        == es[find_key(es, k2)].1 by {
        lemma_find_key_range(r, k2);
        lemma_find_key_range(es, k2);
        let j = find_key(r, k2);
        if i >= 0 {
            let j2 = if j < i { j } else { j + 1 };
            assert(r[j] == es[j2]);
            lemma_find_key_unique(es, k2, j2);
        } else {
            lemma_find_key_unique(es, k2, j);
        }
    }
    assert(as_map(r) =~= as_map(es).remove(k));
}

proof fn lemma_entry_views(es: Seq<MapEntry>)
    ensures
        entry_views(es).len() == es.len(),
        forall|i: int|
            0 <= i < es.len() ==> #[trigger] entry_views(es)[i] == (es[i].key@, es[i].value@),
    decreases es.len(),
{
    if es.len() > 0 {
        let rest = es.subrange(1, es.len() as int);
        lemma_entry_views(rest);
        assert forall|i: int| 0 <= i < es.len() implies #[trigger] entry_views(es)[i] == (
        es[i].key@, es[i].value@) by {
            if i > 0 {
                assert(rest[i - 1] == es[i]);
            }
        }
    }
}

impl ValueMap {
    #[verifier::type_invariant]
    spec fn inv(&self) -> bool {
        unique_keys(entry_views(self.entries@))
    }

    /// The entries in stored order.
    pub closed spec fn view(&self) -> Seq<(Seq<char>, ValueView)>
        decreases self,
    {
        entry_views(self.entries@)
    }

    pub fn new() -> (r: Self)
        ensures
            r@ == Seq::<(Seq<char>, ValueView)>::empty(),
    {
        let r = ValueMap { entries: Vec::new() };
        proof {
            lemma_entry_views(r.entries@);
            assert(r@ =~= Seq::<(Seq<char>, ValueView)>::empty());
        }
        r
    }

    pub fn len(&self) -> (r: usize)
        ensures
            r == self@.len(),
            r == as_map(self@).dom().len(),
            as_map(self@).dom().finite(),
            unique_keys(self@),
    {
        proof {
            use_type_invariant(self);
            lemma_entry_views(self.entries@);
            lemma_as_map_len(self@);
        }
        self.entries.len()
    }

    /// The key and value of the entry at `i`.
    pub fn entry(&self, i: usize) -> (r: (&String, &Value))
        requires
            i < self@.len(),
        ensures
            (r.0@, r.1@) == self@[i as int],
    {
        proof {
            lemma_entry_views(self.entries@);
        }
        (&self.entries[i].key, &self.entries[i].value)
    }

    fn position(&self, k: &String) -> (r: Option<usize>)
        ensures
            r matches Some(i) ==> i == find_key(self@, k@) && i < self.entries@.len(),
            r is None ==> find_key(self@, k@) == -1,
    {
        proof {
            lemma_entry_views(self.entries@);
        }
        let mut i: usize = self.entries.len();
        proof {
            assert(self@.subrange(0, i as int) =~= self@);
        }
        while i > 0
            invariant
                i <= self.entries@.len(),
                self@.len() == self.entries@.len(),
                forall|j: int|
                    0 <= j < self.entries@.len() ==> #[trigger] self@[j] == (
                    self.entries@[j].key@, self.entries@[j].value@),
                find_key(self@, k@) == find_key(self@.subrange(0, i as int), k@),
            decreases i,
        {
            let ghost sub = self@.subrange(0, i as int);
            if self.entries[i - 1].key == *k {
                proof {
                    assert(sub.last() == self@[i - 1]);
                }
                return Some(i - 1);
            }
            proof {
                assert(sub.drop_last() =~= self@.subrange(0, i - 1));
            }
            i = i - 1;
        }
        None
    }

    /// The value stored under `k`.
    pub fn get(&self, k: &String) -> (r: Option<&Value>)
        ensures
            r is Some <==> as_map(self@).contains_key(k@),
            r matches Some(v) ==> v@ == as_map(self@)[k@],
            unique_keys(self@),
    {
        proof {
            use_type_invariant(self);
            lemma_entry_views(self.entries@);
            lemma_find_key_range(self@, k@);
        }
        match self.position(k) {
            Some(i) => Some(&self.entries[i].value),
            None => None,
        }
    }

    /// Sets `k` to `v`, in place when `k` is present, else at the end.
    pub fn insert(&mut self, k: String, v: Value)
        ensures
            final(self)@ == entries_set(old(self)@, k@, v@),
            as_map(final(self)@) == as_map(old(self)@).insert(k@, v@),
            unique_keys(old(self)@),
            unique_keys(final(self)@),
            final(self)@.len() == if as_map(old(self)@).contains_key(k@) {
                old(self)@.len()
            } else {
                old(self)@.len() + 1
            },
    {
        proof {
            use_type_invariant(&*self);
            lemma_entry_views(self.entries@);
            lemma_find_key_range(self@, k@);
            lemma_entries_set(self@, k@, v@);
        }
        let ghost kv = k@;
        let ghost vv = v@;
        let pos = self.position(&k);
        let mut taken = ValueMap::new();
        std::mem::swap(self, &mut taken);
        let mut es = taken.entries;
        match pos {
            Some(i) => {
                es.set(i, MapEntry { key: k, value: v });
            },
            None => {
                es.push(MapEntry { key: k, value: v });
            },
        }
        proof {
            lemma_entry_views(es@);
            assert(entry_views(es@) =~= entries_set(old(self)@, kv, vv));
        }
        *self = ValueMap { entries: es };
    }

    /// Takes the value stored under `k` out of the map, leaving `Nil` in its place.
    pub fn take(&mut self, k: &String) -> (r: Option<Value>)
        ensures
            r is Some <==> as_map(old(self)@).contains_key(k@),
            r matches Some(v) ==> v@ == as_map(old(self)@)[k@] && final(self)@ == entries_set(
                old(self)@,
                k@,
                ValueView::Absent,
            ),
            r is Some ==> as_map(final(self)@) == as_map(old(self)@).insert(k@, ValueView::Absent),
            r is None ==> final(self)@ == old(self)@,
            final(self)@.len() == old(self)@.len(),
            unique_keys(old(self)@),
    {
        proof {
            use_type_invariant(&*self);
            lemma_entry_views(self.entries@);
            lemma_find_key_range(self@, k@);
            lemma_entries_set(self@, k@, ValueView::Absent);
        }
        match self.position(k) {
            Some(i) => {
                let mut taken = ValueMap::new();
                std::mem::swap(self, &mut taken);
                let mut es = taken.entries;
                let e = es.remove(i);
                let MapEntry { key, value } = e;
                es.insert(i, MapEntry { key, value: Value::Nil });
                proof {
                    lemma_entry_views(es@);
                    assert(entry_views(es@) =~= entries_set(old(self)@, k@, ValueView::Absent));
                }
                *self = ValueMap { entries: es };
                Some(value)
            },
            None => None,
        }
    }

    /// Removes `k`; tells whether it was present.
    pub fn remove(&mut self, k: &String) -> (r: bool)
        ensures
            r == as_map(old(self)@).contains_key(k@),
            final(self)@ == entries_remove(old(self)@, k@),
            as_map(final(self)@) == as_map(old(self)@).remove(k@),
            unique_keys(old(self)@),
            unique_keys(final(self)@),
            final(self)@.len() == if r {
                old(self)@.len() - 1
            } else {
                old(self)@.len() as int
            },
    {
        proof {
            use_type_invariant(&*self);
            lemma_entry_views(self.entries@);
            lemma_find_key_range(self@, k@);
            lemma_entries_remove(self@, k@);
        }
        match self.position(k) {
            Some(i) => {
                let mut taken = ValueMap::new();
                std::mem::swap(self, &mut taken);
                let mut es = taken.entries;
                es.remove(i);
                proof {
                    lemma_entry_views(es@);
                    assert(entry_views(es@) =~= entries_remove(old(self)@, k@));
                }
                *self = ValueMap { entries: es };
                true
            },
            None => false,
        }
    }

    /// A copy of the map that owns all of its contents.
    pub fn duplicate(&self) -> (r: Self)
        ensures
            r@ == self@,
            unique_keys(r@),
        decreases self,
    {
        proof {
            use_type_invariant(self);
            lemma_entry_views(self.entries@);
        }
        let mut out: Vec<MapEntry> = Vec::new();
        let mut i: usize = 0;
        while i < self.entries.len()
            invariant
                i <= self.entries@.len(),
                out@.len() == i,
                self@.len() == self.entries@.len(),
                forall|j: int|
                    0 <= j < self.entries@.len() ==> #[trigger] self@[j] == (
                    self.entries@[j].key@, self.entries@[j].value@),
                forall|j: int| 0 <= j < i ==> (#[trigger] out@[j]).key@ == self@[j].0 && out@[j].value@ == self@[j].1,
            decreases self.entries@.len() - i,
        {
            let e = &self.entries[i];
            proof {
                assert(decreases_to!(self => self.entries));
                assert(decreases_to!(self.entries => self.entries[i as int]));
            }
            out.push(MapEntry { key: e.key.clone(), value: e.value.duplicate() });
            i = i + 1;
        }
        proof {
            lemma_entry_views(out@);
            assert(entry_views(out@) =~= self@);
        }
        ValueMap { entries: out }
    }
}

impl Value {
    /// A copy of the value that owns all of its contents.
    pub fn duplicate(&self) -> (r: Self)
        ensures
            r@ == self@,
        decreases self,
    {
        match self {
            Value::String(s) => Value::String(s.duplicate()),
            Value::Integer(n) => Value::Integer(*n),
            Value::Dict(m) => Value::Dict(m.duplicate()),
            Value::Nil => Value::Nil,
        }
    }

    /// The reply that carries this value: `None` stands for no value.
    pub fn to_result(&self) -> (r: ResultValue)
        ensures
            r@ == (if self@ is Absent { ResultView::Absent } else { ResultView::OkValue(self@) }),
    {
        match self {
            Value::Nil => ResultValue::Nil,
            _ => ResultValue::OkValue(self.duplicate()),
        }
    }
}

impl From<u64> for Value {
    fn from(n: u64) -> (r: Self) {
        Value::Integer(IntegerValue { value: n })
    }
}

impl vstd::std_specs::convert::FromSpecImpl<u64> for Value {
    open spec fn obeys_from_spec() -> bool {
        true
    }

    open spec fn from_spec(n: u64) -> Value {
        Value::Integer(IntegerValue { value: n })
    }
}

/// The content of a reply.
pub ghost enum ResultView {
    OkValue(ValueView),
    Done,
    Absent,
}

/// The reply to a command: a value, a plain success, or nothing.
#[derive(Debug)]
pub enum ResultValue {
    OkValue(Value),
    Done,
    Nil,
}

impl ResultValue {
    pub open spec fn view(&self) -> ResultView {
        match self {
            ResultValue::OkValue(v) => ResultView::OkValue(v@),
            ResultValue::Done => ResultView::Done,
            ResultValue::Nil => ResultView::Absent,
        }
    }
}

} // verus!

use vstd::prelude::*;
use vstd::utf8::{valid_utf8, decode_utf8, encode_utf8_decode_utf8};
use vstd::string::StringSliceAdditionalSpecFns;

verus! {

broadcast use {
    vstd::seq::axiom_seq_index_decreases,
    vstd::map::axiom_map_index_decreases_infinite,
    vstd::seq::axiom_seq_subrange_decreases,
    vstd::std_specs::vec::axiom_vec_decreases_to_view,
    vstd::std_specs::vec::axiom_spec_len,
};

/// What the contracts see of a PDF object: the same shapes as [`Primitives`],
/// with byte strings as sequences and a dictionary as a map from key bytes
/// to values.
pub enum Obj {
    Null,
    Int(i64),
    Str(Seq<u8>),
    HexStr(Seq<u16>),
    Real(u64),
    Name(Seq<u8>),
    Array(Seq<Obj>),
    Dict(DictView),
    Ref(i32, i32),
    Cmd(Seq<u8>),
    EOF,
}

/// What the contracts see of a [`Dict`]: its entries as a map from key bytes
/// to values, and its object id.
pub struct DictView {
    pub map: Map<Seq<u8>, Obj>,
    pub obj_id: Option<Seq<char>>,
}

/// The name of a PDF name object (the bytes after `/`).
#[derive(PartialEq, Eq, Hash, Clone, Debug)]
pub struct Name(pub Vec<u8>);

/// `std::str::from_utf8`: the bytes as a string slice when they are valid
/// UTF-8, and nothing otherwise. Trusted to decide validity as vstd's
/// `valid_utf8` does and to keep the bytes as they are.
#[verifier::external_body]
fn str_from_utf8(bytes: &[u8]) -> (r: Option<&str>)
    ensures
        r is Some <==> valid_utf8(bytes@),
        r matches Some(s) ==> s.spec_bytes() == bytes@,
{
    std::str::from_utf8(bytes).ok()
}

impl std::borrow::Borrow<[u8]> for Name {
    /// The bytes of the name.
    fn borrow(&self) -> &[u8] {
        self.0.as_slice()
    }
}

impl Name {
    /// The name as text. Names that are not UTF-8 have no text form, so
    /// callers must only ask for valid ones.
    pub fn name(&self) -> (s: &str)
        requires
            valid_utf8(self.0@),
        ensures
            s.spec_bytes() == self.0@,
    {
        match str_from_utf8(self.0.as_slice()) {
            Some(s) => s,
            None => {
                assert(false);
                ""
            },
        }
    }
}

/// A PDF dictionary: entries from names to objects, no key twice, and an
/// optional object id ("<num>R" or "<num>R<gen>") of the object it was
/// fetched as.
#[derive(Debug)]
pub struct Dict {
    _map: Vec<(Name, Primitives)>,
    obj_id: Option<String>,
}

/// An indirect reference: object number and generation.
#[derive(PartialEq, Clone, Copy, Debug)]
pub struct Ref {
    num: i32,
    gen: i32,
}

/// A PDF object as the lexer and parser produce it. A real number is held as
/// the bit pattern of its `f64`.
#[derive(Debug)]
pub enum Primitives {
    Null,
    Int(i64),
    Str(Vec<u8>),
    HexStr(Vec<u16>),
    Real(u64),
    Name(Name),
    Array(Vec<Primitives>),
    Dict(Dict),
    Ref(Ref),
    Cmd(Vec<u8>),
    EOF,
}

/// The view of an object.
pub open spec fn view_obj(p: Primitives) -> Obj
    decreases p, 0nat,
{
    match p {
        Primitives::Null => Obj::Null,
        Primitives::Int(n) => Obj::Int(n),
        Primitives::Str(v) => Obj::Str(v@),
        Primitives::HexStr(v) => Obj::HexStr(v@),
        Primitives::Real(b) => Obj::Real(b),
        Primitives::Name(n) => Obj::Name(n.0@),
        Primitives::Array(v) => Obj::Array(view_objs(v@)),
        Primitives::Dict(d) => Obj::Dict(d.view_dict()),
        Primitives::Ref(r) => Obj::Ref(r.spec_num(), r.spec_gen()),
        Primitives::Cmd(v) => Obj::Cmd(v@),
        Primitives::EOF => Obj::EOF,
    }
}

/// The views of a sequence of objects.
pub open spec fn view_objs(s: Seq<Primitives>) -> Seq<Obj>
    decreases s, 1nat,
{
    if s.len() == 0 {
        Seq::empty()
    } else {
        view_objs(s.drop_last()).push(view_obj(s.last()))
    }
}

/// The map that a sequence of entries stands for; where a key occurs twice
/// the later entry wins.
pub open spec fn entries_map(s: Seq<(Name, Primitives)>) -> Map<Seq<u8>, Obj>
    decreases s, 1nat,
{
    if s.len() == 0 {
        Map::empty()
    } else {
        entries_map(s.drop_last()).insert(s.last().0.0@, view_obj(s.last().1))
    }
}

/// What [`Dict::get`] finds under `key`: nothing, since this reader does not
/// resolve dictionary entries yet.
pub open spec fn dict_get(d: DictView, key: Seq<u8>) -> Option<Obj> {
    None
}

/// No key occurs twice among the entries.
pub open spec fn distinct_keys(s: Seq<(Name, Primitives)>) -> bool {
    forall|i: int, j: int| 0 <= i < j < s.len() ==> s[i].0.0@ != s[j].0.0@
}

impl View for Primitives {
    type V = Obj;

    open spec fn view(&self) -> Obj {
        view_obj(*self)
    }
}

impl View for Dict {
    type V = DictView;

    open spec fn view(&self) -> DictView {
        self.view_dict()
    }
}

impl View for Ref {
    type V = (i32, i32);

    open spec fn view(&self) -> (i32, i32) {
        (self.spec_num(), self.spec_gen())
    }
}

impl Ref {
    pub closed spec fn spec_num(&self) -> i32 {
        self.num
    }

    pub closed spec fn spec_gen(&self) -> i32 {
        self.gen
    }

    pub fn new(num: i32, gen: i32) -> (r: Self)
        ensures
            r@ == (num, gen),
    {
        Ref { num, gen }
    }

    pub fn num(&self) -> (n: i32)
        ensures
            n == self@.0,
    {
        self.num
    }

    pub fn gen(&self) -> (g: i32)
        ensures
            g == self@.1,
    {
        self.gen
    }
}

impl Dict {
    pub closed spec fn view_dict(self) -> DictView
        decreases self, 0nat,
    {
        DictView {
            map: entries_map(self._map@),
            obj_id: match self.obj_id {
                Some(s) => Some(s@),
                None => None,
            },
        }
    }

    /// No key occurs twice.
    pub closed spec fn wf(self) -> bool {
        distinct_keys(self._map@)
    }

    /// A dictionary with the given entries and no object id.
    pub fn new(entries: Vec<(Name, Primitives)>) -> (d: Self)
        requires
            distinct_keys(entries@),
        ensures
            d.wf(),
            d@ == (DictView { map: entries_map(entries@), obj_id: None }),
    {
        Dict { _map: entries, obj_id: None }
    }

    /// An empty dictionary.
    pub fn empty() -> (d: Self)
        ensures
            d.wf(),
            d@ == (DictView { map: Map::empty(), obj_id: None }),
    {
        Dict { _map: Vec::new(), obj_id: None }
    }

    /// Looking a key up: this reader does not resolve dictionary entries yet,
    /// so the answer is always none; see [`dict_get`].
    pub fn get(&self, key: &[u8]) -> (r: Option<&Primitives>)
        ensures
            r is None,
            dict_get(self@, key@) is None,
    {
        None
    }

    /// Whether the dictionary has an entry under `key`.
    pub fn has(&self, key: &[u8]) -> (b: bool)
        ensures
            b == self@.map.contains_key(key@),
    {
        let n = self._map.len();
        let mut i: usize = 0;
        while i < n
            invariant
                i <= n,
                n == self._map@.len(),
                forall|j: int| 0 <= j < i ==> self._map@[j].0.0@ != key@,
            decreases n - i,
        {
            if bytes_eq(self._map[i].0.0.as_slice(), key) {
                proof {
                    lemma_entries_map_contains(self._map@, i as int);
                }
                return true;
            }
            i = i + 1;
        }
        proof {
            lemma_entries_map_absent(self._map@, key@);
        }
        false
    }

    pub fn obj_id(&self) -> (r: Option<&String>)
        ensures
            match r {
                Some(s) => self@.obj_id == Some(s@),
                None => self@.obj_id is None,
            },
    {
        self.obj_id.as_ref()
    }

    pub fn set_obj_id(&mut self, obj_id: &str)
        ensures
            final(self)@ == (DictView { obj_id: Some(obj_id@), ..old(self)@ }),
            final(self).wf() == old(self).wf(),
    {
        self.obj_id = Some(String::from_str(obj_id));
    }

    /// Enters `value` under `key`, in place of an entry already there.
    pub fn insert(&mut self, key: Name, value: Primitives)
        requires
            old(self).wf(),
        ensures
            final(self).wf(),
            final(self)@ == (DictView {
                map: old(self)@.map.insert(key.0@, value@),
                ..old(self)@
            }),
    {
        let n = self._map.len();
        let mut i: usize = 0;
        while i < n
            invariant
                i <= n,
                n == self._map@.len(),
                self._map@ == old(self)._map@,
                self.obj_id == old(self).obj_id,
                distinct_keys(self._map@),
                forall|j: int| 0 <= j < i ==> self._map@[j].0.0@ != key.0@,
            decreases n - i,
        {
            if bytes_eq(self._map[i].0.0.as_slice(), key.0.as_slice()) {
                let ghost old_map = self._map@;
                let k = key;
                let v = value;
                proof {
                    lemma_entries_map_update(old_map, i as int, (k, v));
                }
                self._map.set(i, (k, v));
                return ;
            }
            i = i + 1;
        }
        proof {
            lemma_entries_map_absent(self._map@, key.0@);
        }
        let ghost kv = (key, value);
        self._map.push((key, value));
        assert(self._map@.drop_last() == old(self)._map@);
        assert(self._map@.last() == kv);
        assert(distinct_keys(self._map@)) by {
            assert forall|a: int, b: int| 0 <= a < b < self._map@.len() implies self._map@[a].0.0@
                != self._map@[b].0.0@ by {
                if b == self._map@.len() - 1 {
                    assert(self._map@[a] == old(self)._map@[a]);
                }
            }
        }
        assert(entries_map(self._map@) == entries_map(old(self)._map@).insert(key.0@, view_obj(value)));
    }
}


/// Copies a byte vector.
pub fn copy_bytes(v: &Vec<u8>) -> (r: Vec<u8>)
    ensures
        r@ == v@,
{
    let mut r: Vec<u8> = Vec::new();
    let mut i: usize = 0;
    while i < v.len()
        invariant
            i <= v@.len(),
            r@ == v@.take(i as int),
        decreases v@.len() - i,
    {
        r.push(v[i]);
        i = i + 1;
        assert(r@ == v@.take(i as int));
    }
    assert(v@.take(v@.len() as int) == v@);
    r
}

/// Copies a vector of 16-bit units.
pub fn copy_units(v: &Vec<u16>) -> (r: Vec<u16>)
    ensures
        r@ == v@,
{
    let mut r: Vec<u16> = Vec::new();
    let mut i: usize = 0;
    while i < v.len()
        invariant
            i <= v@.len(),
            r@ == v@.take(i as int),
        decreases v@.len() - i,
    {
        r.push(v[i]);
        i = i + 1;
        assert(r@ == v@.take(i as int));
    }
    assert(v@.take(v@.len() as int) == v@);
    r
}

/// The bytes of a string slice, copied into a vector.
pub fn str_bytes(s: &str) -> (r: Vec<u8>)
    ensures
        r@ == s.spec_bytes(),
{
    let b = s.as_bytes();
    let mut r: Vec<u8> = Vec::new();
    let mut i: usize = 0;
    while i < b.len()
        invariant
            i <= b@.len(),
            r@ == b@.take(i as int),
        decreases b@.len() - i,
    {
        r.push(b[i]);
        i = i + 1;
        assert(r@ == b@.take(i as int));
    }
    assert(b@.take(b@.len() as int) == b@);
    r
}

/// The bit pattern of an `f64` is a NaN: every exponent bit is set and the
/// fraction is not zero.
pub open spec fn real_is_nan(b: u64) -> bool {
    &&& (b / 0x10_0000_0000_0000) % 0x800 == 0x7ff
    &&& b % 0x10_0000_0000_0000 != 0
}

/// The bit pattern of an `f64` is a zero, of either sign.
pub open spec fn real_is_zero(b: u64) -> bool {
    b % 0x8000_0000_0000_0000 == 0
}

/// `==` on `f64` values, given by their bit patterns: a NaN equals nothing,
/// the two zeros are equal, and otherwise the bits must agree.
pub open spec fn real_eq(a: u64, b: u64) -> bool {
    &&& !real_is_nan(a)
    &&& !real_is_nan(b)
    &&& (a == b || (real_is_zero(a) && real_is_zero(b)))
}

/// `==` on objects: the same kind with equal contents, where real numbers
/// compare as `f64` values ([`real_eq`]), arrays item by item, and
/// dictionaries when they have the same keys with equal values and the same
/// object id.
pub open spec fn obj_equal(a: Obj, b: Obj) -> bool
    decreases a,
{
    match (a, b) {
        (Obj::Real(x), Obj::Real(y)) => real_eq(x, y),
        (Obj::Array(x), Obj::Array(y)) => {
            &&& x.len() == y.len()
            &&& forall|i: int| 0 <= i < x.len() ==> obj_equal(#[trigger] x[i], y[i])
        },
        (Obj::Dict(x), Obj::Dict(y)) => {
            &&& x.obj_id == y.obj_id
            &&& x.map.dom() == y.map.dom()
            &&& forall|k: Seq<u8>| #[trigger] x.map.contains_key(k) ==> obj_equal(x.map[k], y.map[k])
        },
        _ => a == b,
    }
}

/// Whether `b` is the bit pattern of a NaN.
fn real_nan(b: u64) -> (r: bool)
    ensures
        r == real_is_nan(b),
{
    (b / 0x10_0000_0000_0000) % 0x800 == 0x7ff && b % 0x10_0000_0000_0000 != 0
}

/// `==` on the `f64` values of two bit patterns; see [`real_eq`].
fn real_equal(a: u64, b: u64) -> (r: bool)
    ensures
        r == real_eq(a, b),
{
    !real_nan(a) && !real_nan(b) && (a == b || (a % 0x8000_0000_0000_0000 == 0 && b
        % 0x8000_0000_0000_0000 == 0))
}

/// The views of the items are the views of the objects, one for one.
pub proof fn lemma_view_objs(s: Seq<Primitives>)
    ensures
        view_objs(s).len() == s.len(),
        forall|i: int| 0 <= i < s.len() ==> #[trigger] view_objs(s)[i] == view_obj(s[i]),
    decreases s.len(),
{
    if s.len() > 0 {
        lemma_view_objs(s.drop_last());
        assert forall|i: int| 0 <= i < s.len() implies #[trigger] view_objs(s)[i] == view_obj(s[i]) by {
            if i < s.len() - 1 {
                assert(s.drop_last()[i] == s[i]);
            }
        }
    }
}

/// The value the map has under the key of entry `i`, when no later entry
/// has that key, is the value of entry `i`.
pub proof fn lemma_entries_map_last(s: Seq<(Name, Primitives)>, i: int)
    requires
        0 <= i < s.len(),
        forall|j: int| i < j < s.len() ==> s[j].0.0@ != s[i].0.0@,
    ensures
        entries_map(s).contains_key(s[i].0.0@),
        entries_map(s)[s[i].0.0@] == view_obj(s[i].1),
    decreases s.len(),
{
    if i < s.len() - 1 {
        let t = s.drop_last();
        assert forall|j: int| i < j < t.len() implies t[j].0.0@ != t[i].0.0@ by {
            assert(t[j] == s[j]);
        }
        lemma_entries_map_last(t, i);
        assert(s[s.len() - 1].0.0@ != s[i].0.0@);
    }
}

/// A key of the map is the key of some entry.
pub proof fn lemma_entries_map_has_entry(s: Seq<(Name, Primitives)>, k: Seq<u8>)
    requires
        entries_map(s).contains_key(k),
    ensures
        exists|i: int| 0 <= i < s.len() && #[trigger] s[i].0.0@ == k,
    decreases s.len(),
{
    if s.len() > 0 && s.last().0.0@ != k {
        lemma_entries_map_has_entry(s.drop_last(), k);
        let i = choose|i: int| 0 <= i < s.drop_last().len() && #[trigger] s.drop_last()[i].0.0@ == k;
        assert(s[i] == s.drop_last()[i]);
    } else if s.len() > 0 {
        assert(s[s.len() - 1].0.0@ == k);
    }
}

/// Where the last entry with key `k` is: the map's value under `k` is there.
fn find_last(v: &Vec<(Name, Primitives)>, k: &[u8]) -> (r: Option<usize>)
    ensures
        match r {
            Some(i) => {
                &&& i < v@.len()
                &&& v@[i as int].0.0@ == k@
                &&& entries_map(v@).contains_key(k@)
                &&& entries_map(v@)[k@] == view_obj(v@[i as int].1)
            },
            None => !entries_map(v@).contains_key(k@),
        },
{
    let mut i: usize = v.len();
    while i > 0
        invariant
            i <= v@.len(),
            forall|j: int| i <= j < v@.len() ==> v@[j].0.0@ != k@,
        decreases i,
    {
        i = i - 1;
        if bytes_eq(v[i].0.0.as_slice(), k) {
            proof {
                lemma_entries_map_last(v@, i as int);
            }
            return Some(i);
        }
    }
    proof {
        lemma_entries_map_absent(v@, k@);
    }
    None
}

/// Whether two vectors of 16-bit units are equal.
fn units_eq(a: &Vec<u16>, b: &Vec<u16>) -> (r: bool)
    ensures
        r == (a@ == b@),
{
    if a.len() != b.len() {
        return false;
    }
    let mut i: usize = 0;
    while i < a.len()
        invariant
            i <= a@.len(),
            a@.len() == b@.len(),
            forall|j: int| 0 <= j < i ==> a@[j] == b@[j],
        decreases a@.len() - i,
    {
        if a[i] != b[i] {
            return false;
        }
        i = i + 1;
    }
    assert(a@ =~= b@);
    true
}

/// Whether two objects are equal; see [`obj_equal`]. The order of a
/// dictionary's entries does not matter.
pub fn obj_eq(a: &Primitives, b: &Primitives) -> (r: bool)
    ensures
        r == obj_equal(a@, b@),
    decreases a, 0nat,
{
    match (a, b) {
        (Primitives::Null, Primitives::Null) => true,
        (Primitives::Int(x), Primitives::Int(y)) => *x == *y,
        (Primitives::Str(x), Primitives::Str(y)) => bytes_eq(x.as_slice(), y.as_slice()),
        (Primitives::HexStr(x), Primitives::HexStr(y)) => units_eq(x, y),
        (Primitives::Real(x), Primitives::Real(y)) => real_equal(*x, *y),
        (Primitives::Name(x), Primitives::Name(y)) => bytes_eq(x.0.as_slice(), y.0.as_slice()),
        (Primitives::Array(x), Primitives::Array(y)) => {
            proof {
                lemma_view_objs(x@);
                lemma_view_objs(y@);
            }
            if x.len() != y.len() {
                return false;
            }
            let mut i: usize = 0;
            while i < x.len()
                invariant
                    i <= x@.len(),
                    x@.len() == y@.len(),
                    *a == Primitives::Array(*x),
                    *b == Primitives::Array(*y),
                    view_objs(x@).len() == x@.len(),
                    view_objs(y@).len() == y@.len(),
                    forall|j: int| 0 <= j < x@.len() ==> #[trigger] view_objs(x@)[j] == view_obj(x@[j]),
                    forall|j: int| 0 <= j < y@.len() ==> #[trigger] view_objs(y@)[j] == view_obj(y@[j]),
                    forall|j: int| 0 <= j < i ==> obj_equal(view_obj(x@[j]), view_obj(y@[j])),
                decreases x@.len() - i,
            {
                proof {
                    assert(decreases_to!(*x => x@[i as int]));
                    let ghost arr = Primitives::Array(*x);
                    assert(decreases_to!(arr => arr->Array_0));
                    assert(decreases_to!(*a => x@[i as int]));
                }
                if !obj_eq(&x[i], &y[i]) {
                    assert(!obj_equal(view_objs(x@)[i as int], view_objs(y@)[i as int]));
                    return false;
                }
                i = i + 1;
            }
            assert forall|j: int| 0 <= j < view_objs(x@).len() implies obj_equal(
                #[trigger] view_objs(x@)[j],
                view_objs(y@)[j],
            ) by {
                assert(view_objs(x@)[j] == view_obj(x@[j]));
            }
            true
        },
        (Primitives::Dict(x), Primitives::Dict(y)) => dict_eq(x, y),
        (Primitives::Ref(x), Primitives::Ref(y)) => x.num == y.num && x.gen == y.gen,
        (Primitives::Cmd(x), Primitives::Cmd(y)) => bytes_eq(x.as_slice(), y.as_slice()),
        (Primitives::EOF, Primitives::EOF) => true,
        _ => false,
    }
}

/// Whether two dictionaries are equal: the same keys with equal values
/// ([`obj_equal`]), and the same object id.
pub fn dict_eq(a: &Dict, b: &Dict) -> (r: bool)
    ensures
        r == obj_equal(Obj::Dict(a@), Obj::Dict(b@)),
    decreases a, 1nat,
{
    let same_id = match (&a.obj_id, &b.obj_id) {
        (Some(s), Some(t)) => s.eq(t),
        (None, None) => true,
        _ => false,
    };
    if !same_id {
        return false;
    }
    let ghost ma = entries_map(a._map@);
    let ghost mb = entries_map(b._map@);
    let mut i: usize = 0;
    while i < a._map.len()
        invariant
            i <= a._map@.len(),
            ma == entries_map(a._map@),
            mb == entries_map(b._map@),
            forall|j: int|
                0 <= j < i ==> {
                    let k = (#[trigger] a._map@[j]).0.0@;
                    &&& ma.contains_key(k)
                    &&& mb.contains_key(k)
                    &&& obj_equal(ma[k], mb[k])
                },
        decreases a._map@.len() - i,
    {
        let k = a._map[i].0.0.as_slice();
        let ia = match find_last(&a._map, k) {
            Some(j) => j,
            None => {
                proof {
                    lemma_entries_map_contains(a._map@, i as int);
                }
                assert(false);
                return false;
            },
        };
        let ib = match find_last(&b._map, k) {
            Some(j) => j,
            None => {
                proof {
                    lemma_entries_map_contains(a._map@, i as int);
                }
                assert(ma.contains_key(k@) && !mb.contains_key(k@));
                return false;
            },
        };
        if !obj_eq(&a._map[ia].1, &b._map[ib].1) {
            assert(!obj_equal(ma[k@], mb[k@]));
            return false;
        }
        i = i + 1;
    }
    let mut i: usize = 0;
    while i < b._map.len()
        invariant
            i <= b._map@.len(),
            ma == entries_map(a._map@),
            mb == entries_map(b._map@),
            forall|j: int| 0 <= j < i ==> ma.contains_key((#[trigger] b._map@[j]).0.0@),
            forall|j: int|
                0 <= j < a._map@.len() ==> {
                    let k = (#[trigger] a._map@[j]).0.0@;
                    &&& ma.contains_key(k)
                    &&& mb.contains_key(k)
                    &&& obj_equal(ma[k], mb[k])
                },
        decreases b._map@.len() - i,
    {
        let k = b._map[i].0.0.as_slice();
        match find_last(&a._map, k) {
            Some(_) => {},
            None => {
                proof {
                    lemma_entries_map_contains(b._map@, i as int);
                }
                assert(mb.contains_key(k@) && !ma.contains_key(k@));
                return false;
            },
        }
        i = i + 1;
    }
    assert forall|k: Seq<u8>| #[trigger] ma.dom().contains(k) == mb.dom().contains(k) && (
    ma.dom().contains(k) ==> obj_equal(ma[k], mb[k])) by {
        if ma.contains_key(k) {
            lemma_entries_map_has_entry(a._map@, k);
            let j = choose|j: int| 0 <= j < a._map@.len() && #[trigger] a._map@[j].0.0@ == k;
            assert(a._map@[j].0.0@ == k);
        }
        if mb.contains_key(k) {
            lemma_entries_map_has_entry(b._map@, k);
            let j = choose|j: int| 0 <= j < b._map@.len() && #[trigger] b._map@[j].0.0@ == k;
            assert(b._map@[j].0.0@ == k);
        }
    }
    assert(ma.dom() =~= mb.dom());
    assert(a@.map == ma && b@.map == mb);
    true
}

impl PartialEq for Dict {
    fn eq(&self, other: &Self) -> (r: bool) {
        dict_eq(self, other)
    }
}

impl vstd::std_specs::cmp::PartialEqSpecImpl for Dict {
    open spec fn obeys_eq_spec() -> bool {
        true
    }

    open spec fn eq_spec(&self, other: &Dict) -> bool {
        obj_equal(Obj::Dict(self@), Obj::Dict(other@))
    }
}

impl PartialEq for Primitives {
    fn eq(&self, other: &Self) -> (r: bool) {
        obj_eq(self, other)
    }
}

impl vstd::std_specs::cmp::PartialEqSpecImpl for Primitives {
    open spec fn obeys_eq_spec() -> bool {
        true
    }

    open spec fn eq_spec(&self, other: &Primitives) -> bool {
        obj_equal(self@, other@)
    }
}

impl PartialEq<Primitives> for Option<Primitives> {
    fn eq(&self, other: &Primitives) -> (r: bool) {
        match self {
            Some(me) => obj_eq(me, other),
            None => false,
        }
    }
}

impl vstd::std_specs::cmp::PartialEqSpecImpl<Primitives> for Option<Primitives> {
    open spec fn obeys_eq_spec() -> bool {
        true
    }

    open spec fn eq_spec(&self, other: &Primitives) -> bool {
        match self {
            Some(me) => obj_equal(me@, other@),
            None => false,
        }
    }
}

impl Clone for Primitives {
    /// A deep copy.
    fn clone(&self) -> (r: Self)
        ensures
            r@ == self@,
        decreases self, 0nat,
    {
        match self {
            Primitives::Null => Primitives::Null,
            Primitives::Int(n) => Primitives::Int(*n),
            Primitives::Str(v) => Primitives::Str(copy_bytes(v)),
            Primitives::HexStr(v) => Primitives::HexStr(copy_units(v)),
            Primitives::Real(b) => Primitives::Real(*b),
            Primitives::Name(n) => Primitives::Name(Name(copy_bytes(&n.0))),
            Primitives::Array(v) => {
                let mut out: Vec<Primitives> = Vec::new();
                let mut i: usize = 0;
                while i < v.len()
                    invariant
                        i <= v@.len(),
                        *self == Primitives::Array(*v),
                        view_objs(out@) == view_objs(v@.take(i as int)),
                        out@.len() == i,
                    decreases v@.len() - i,
                {
                    proof {
                        assert(decreases_to!(*v => v@[i as int]));
                        let ghost a = Primitives::Array(*v);
                        assert(decreases_to!(a => a->Array_0));
                        assert(decreases_to!(*self => v@[i as int]));
                    }
                    let e = v[i].clone();
                    let ghost prev = out@;
                    out.push(e);
                    assert(out@.drop_last() == prev);
                    assert(v@.take(i + 1).drop_last() == v@.take(i as int));
                    i = i + 1;
                }
                assert(v@.take(v@.len() as int) == v@);
                Primitives::Array(out)
            },
            Primitives::Dict(d) => Primitives::Dict(d.clone()),
            Primitives::Ref(r) => Primitives::Ref(*r),
            Primitives::Cmd(v) => Primitives::Cmd(copy_bytes(v)),
            Primitives::EOF => Primitives::EOF,
        }
    }
}

impl Clone for Dict {
    /// A deep copy.
    fn clone(&self) -> (r: Self)
        ensures
            r@ == self@,
            r.wf() == self.wf(),
        decreases self, 1nat,
    {
        let mut out: Vec<(Name, Primitives)> = Vec::new();
        let mut i: usize = 0;
        while i < self._map.len()
            invariant
                i <= self._map@.len(),
                out@.len() == i,
                forall|j: int| 0 <= j < i ==> (#[trigger] out@[j]).0.0@ == self._map@[j].0.0@,
                entries_map(out@) == entries_map(self._map@.take(i as int)),
            decreases self._map@.len() - i,
        {
            let k = Name(copy_bytes(&self._map[i].0.0));
            let v = self._map[i].1.clone();
            let ghost prev = out@;
            out.push((k, v));
            assert(out@.drop_last() == prev);
            assert(self._map@.take(i + 1).drop_last() == self._map@.take(i as int));
            i = i + 1;
        }
        assert(self._map@.take(self._map@.len() as int) == self._map@);
        assert(distinct_keys(out@) == distinct_keys(self._map@)) by {
            if distinct_keys(self._map@) {
                assert forall|a: int, b: int| 0 <= a < b < out@.len() implies out@[a].0.0@
                    != out@[b].0.0@ by {
                    assert(self._map@[a].0.0@ != self._map@[b].0.0@);
                }
            }
            if distinct_keys(out@) {
                assert forall|a: int, b: int| 0 <= a < b < self._map@.len() implies self._map@[a].0.0@
                    != self._map@[b].0.0@ by {
                    assert(out@[a].0.0@ != out@[b].0.0@);
                }
            }
        }
        let obj_id = match &self.obj_id {
            Some(s) => Some(s.clone()),
            None => None,
        };
        Dict { _map: out, obj_id }
    }
}

impl Primitives {
    /// A command object with the bytes of `cmd`.
    pub fn cmd(cmd: &str) -> (p: Primitives)
        ensures
            p@ == Obj::Cmd(cmd.spec_bytes()),
    {
        Primitives::Cmd(str_bytes(cmd))
    }

    /// A name object with the given bytes.
    pub fn name(bytes: Vec<u8>) -> (p: Primitives)
        ensures
            p@ == Obj::Name(bytes@),
    {
        Primitives::Name(Name(bytes))
    }

    /// Whether this is the command `cmd`.
    pub fn is_cmd(&self, cmd: &str) -> (b: bool)
        ensures
            b == (self@ == Obj::Cmd(cmd.spec_bytes())),
    {
        if let Primitives::Cmd(bytes) = self {
            if bytes_eq(bytes.as_slice(), cmd.as_bytes()) {
                return true;
            }
        }
        false
    }

    /// Whether this is the command with the bytes `cmd`.
    pub fn is_cmd_bytes(&self, cmd: &[u8]) -> (b: bool)
        ensures
            b == (self@ == Obj::Cmd(cmd@)),
    {
        if let Primitives::Cmd(bytes) = self {
            if bytes_eq(bytes.as_slice(), cmd) {
                return true;
            }
        }
        false
    }

    pub fn is_name(&self) -> (b: bool)
        ensures
            b == self@ is Name,
    {
        if let Primitives::Name(_) = self {
            true
        } else {
            false
        }
    }

    pub fn is_integer(&self) -> (b: bool)
        ensures
            b == self@ is Int,
    {
        if let Primitives::Int(_) = self {
            true
        } else {
            false
        }
    }

    pub fn is_string(&self) -> (b: bool)
        ensures
            b == self@ is Str,
    {
        if let Primitives::Str(_) = self {
            true
        } else {
            false
        }
    }

    /// Whether this is the end-of-file marker.
    pub fn is_eof(&self) -> (b: bool)
        ensures
            b == self@ is EOF,
    {
        if let Primitives::EOF = self {
            true
        } else {
            false
        }
    }

    pub fn get_cmd(&self) -> (r: Option<&Vec<u8>>)
        ensures
            match r {
                Some(v) => self@ == Obj::Cmd(v@),
                None => !(self@ is Cmd),
            },
    {
        if let Primitives::Cmd(bytes) = self {
            return Some(bytes);
        }
        None
    }

    pub fn get_integer(&self) -> (r: Option<i64>)
        ensures
            r == match self@ {
                Obj::Int(n) => Some(n),
                _ => None::<i64>,
            },
    {
        if let Primitives::Int(num) = self {
            return Some(*num);
        }
        None
    }

    pub fn get_str(&self) -> (r: Option<&Vec<u8>>)
        ensures
            match r {
                Some(v) => self@ == Obj::Str(v@),
                None => !(self@ is Str),
            },
    {
        if let Primitives::Str(bytes) = self {
            return Some(bytes);
        }
        None
    }

    pub fn get_hexstr(&self) -> (r: Option<&Vec<u16>>)
        ensures
            match r {
                Some(v) => self@ == Obj::HexStr(v@),
                None => !(self@ is HexStr),
            },
    {
        if let Primitives::HexStr(bytes) = self {
            return Some(bytes);
        }
        None
    }

    pub fn get_dict(&self) -> (r: Option<&Dict>)
        ensures
            match r {
                Some(d) => self@ == Obj::Dict(d@),
                None => !(self@ is Dict),
            },
    {
        if let Primitives::Dict(dict) = self {
            return Some(dict);
        }
        None
    }

    /// The dictionary in this object, to change in place.
    pub fn get_dict_mut(&mut self) -> (r: Option<&mut Dict>)
        ensures
            r is Some <==> old(self)@ is Dict,
            r matches Some(d) ==> old(self)@ == Obj::Dict(d@) && final(self)@ == Obj::Dict(
                final(d)@,
            ),
            r is None ==> final(self)@ == old(self)@,
    {
        if let Primitives::Dict(ref mut dict) = self {
            return Some(dict);
        }
        None
    }

    /// The dictionary in this object, which must hold one.
    pub fn unwrap_dict(self) -> (d: Dict)
        requires
            self@ is Dict,
        ensures
            self@ == Obj::Dict(d@),
    {
        if let Primitives::Dict(dict) = self {
            return dict;
        }
        assert(false);
        Dict::empty()
    }
}

/// The decimal digit `d` as a character.
pub open spec fn digit_char(d: nat) -> char {
    (d + 0x30) as char
}

/// The decimal digits of `n`.
pub open spec fn nat_chars(n: nat) -> Seq<char>
    decreases n,
{
    if n < 10 {
        seq![digit_char(n)]
    } else {
        nat_chars(n / 10).push(digit_char(n % 10))
    }
}

/// `n` in decimal, with a `-` in front when negative.
pub open spec fn int_chars(n: int) -> Seq<char> {
    if n < 0 {
        seq!['-'] + nat_chars((-n) as nat)
    } else {
        nat_chars(n as nat)
    }
}

/// The text of a reference: `<num>R`, followed by the generation unless it is 0.
pub open spec fn ref_chars(num: i32, gen: i32) -> Seq<char> {
    if gen == 0 {
        int_chars(num as int) + seq!['R']
    } else {
        int_chars(num as int) + seq!['R'] + int_chars(gen as int)
    }
}

fn digit_str(d: u64) -> (s: &'static str)
    requires
        d < 10,
    ensures
        s@ == seq![digit_char(d as nat)],
{
    proof {
        reveal_strlit("0");
        reveal_strlit("1");
        reveal_strlit("2");
        reveal_strlit("3");
        reveal_strlit("4");
        reveal_strlit("5");
        reveal_strlit("6");
        reveal_strlit("7");
        reveal_strlit("8");
        reveal_strlit("9");
    }
    if d == 0 {
        "0"
    } else if d == 1 {
        "1"
    } else if d == 2 {
        "2"
    } else if d == 3 {
        "3"
    } else if d == 4 {
        "4"
    } else if d == 5 {
        "5"
    } else if d == 6 {
        "6"
    } else if d == 7 {
        "7"
    } else if d == 8 {
        "8"
    } else {
        "9"
    }
}

/// Appends the decimal digits of `n` to `s`.
pub(crate) fn append_nat(s: &mut String, n: u64)
    ensures
        final(s)@ == old(s)@ + nat_chars(n as nat),
    decreases n,
{
    if n >= 10 {
        append_nat(s, n / 10);
    }
    s.append(digit_str(n % 10));
    assert(old(s)@ + nat_chars(n as nat) =~= if n >= 10 {
        old(s)@ + nat_chars((n / 10) as nat) + seq![digit_char((n % 10) as nat)]
    } else {
        old(s)@ + seq![digit_char((n % 10) as nat)]
    });
}

/// Appends `n` in decimal to `s`.
fn append_int(s: &mut String, n: i64)
    ensures
        final(s)@ == old(s)@ + int_chars(n as int),
{
    if n < 0 {
        proof {
            reveal_strlit("-");
        }
        s.append("-");
        append_nat(s, (-(n as i128)) as u64);
        assert(old(s)@ + int_chars(n as int) =~= old(s)@ + seq!['-'] + nat_chars((-n) as nat));
    } else {
        append_nat(s, n as u64);
    }
}

impl Ref {
    /// The reference as text: `<num>R`, then the generation unless it is 0.
    pub fn to_string(&self) -> (s: String)
        ensures
            s@ == ref_chars(self@.0, self@.1),
    {
        let mut s = String::new();
        append_int(&mut s, self.num as i64);
        proof {
            reveal_strlit("R");
        }
        s.append("R");
        if self.gen != 0 {
            append_int(&mut s, self.gen as i64);
        }
        s
    }
}

/// After an insert, the dictionary has the key, with the value inserted, and
/// every other entry as before.
pub proof fn law_insert_then_lookup(d: DictView, k: Seq<u8>, v: Obj, other: Seq<u8>)
    requires
        other != k,
    ensures
        d.map.insert(k, v).contains_key(k),
        d.map.insert(k, v)[k] == v,
        d.map.insert(k, v).contains_key(other) == d.map.contains_key(other),
        d.map.contains_key(other) ==> d.map.insert(k, v)[other] == d.map[other],
{
}

/// Whether two byte strings are equal.
pub fn bytes_eq(a: &[u8], b: &[u8]) -> (r: bool)
    ensures
        r == (a@ == b@),
{
    if a.len() != b.len() {
        return false;
    }
    let mut i: usize = 0;
    while i < a.len()
        invariant
            i <= a@.len(),
            a@.len() == b@.len(),
            forall|j: int| 0 <= j < i ==> a@[j] == b@[j],
        decreases a@.len() - i,
    {
        if a[i] != b[i] {
            return false;
        }
        i = i + 1;
    }
    assert(a@ =~= b@);
    true
}

/// The entry at `i` is in the map, unless a later entry has the same key.
pub proof fn lemma_entries_map_contains(s: Seq<(Name, Primitives)>, i: int)
    requires
        0 <= i < s.len(),
    ensures
        entries_map(s).contains_key(s[i].0.0@),
    decreases s.len(),
{
    if i < s.len() - 1 {
        lemma_entries_map_contains(s.drop_last(), i);
    }
}

/// A key that no entry has is not in the map.
pub proof fn lemma_entries_map_absent(s: Seq<(Name, Primitives)>, k: Seq<u8>)
    requires
        forall|j: int| 0 <= j < s.len() ==> s[j].0.0@ != k,
    ensures
        !entries_map(s).contains_key(k),
    decreases s.len(),
{
    if s.len() > 0 {
        lemma_entries_map_absent(s.drop_last(), k);
    }
}

/// Replacing the entry at `i` by one with the same key replaces the value in
/// the map.
pub proof fn lemma_entries_map_update(s: Seq<(Name, Primitives)>, i: int, e: (Name, Primitives))
    requires
        0 <= i < s.len(),
        distinct_keys(s),
        s[i].0.0@ == e.0.0@,
    ensures
        distinct_keys(s.update(i, e)),
        entries_map(s.update(i, e)) == entries_map(s).insert(e.0.0@, view_obj(e.1)),
    decreases s.len(),
{
    let t = s.update(i, e);
    if i == s.len() - 1 {
        assert(t.drop_last() == s.drop_last());
        lemma_entries_map_absent_distinct(s, i);
        assert(entries_map(t) =~= entries_map(s).insert(e.0.0@, view_obj(e.1)));
    } else {
        assert(t.drop_last() == s.drop_last().update(i, e));
        lemma_entries_map_update(s.drop_last(), i, e);
        assert(entries_map(t) =~= entries_map(s).insert(e.0.0@, view_obj(e.1)));
    }
}

proof fn lemma_entries_map_absent_distinct(s: Seq<(Name, Primitives)>, i: int)
    requires
        0 <= i < s.len(),
        i == s.len() - 1,
        distinct_keys(s),
    ensures
        !entries_map(s.drop_last()).contains_key(s[i].0.0@),
{
    lemma_entries_map_absent(s.drop_last(), s[i].0.0@);
}


/// The text that `{:?}` gives a string: its characters in double quotes,
/// with quotes, backslashes and characters that do not print written as
/// escapes.
pub uninterp spec fn str_debug(s: Seq<char>) -> Seq<char>;

/// `format!("{:?}", s)` on a string slice: trusted to give [`str_debug`] of
/// its characters, which depends on them alone.
#[verifier::external_body]
fn debug_str(s: &str) -> (r: String)
    ensures
        r@ == str_debug(s@),
{
    format!("{:?}", s)
}

/// The characters that the 16-bit units decode to as UTF-16, or none where
/// they are not valid UTF-16.
pub uninterp spec fn utf16_text(units: Seq<u16>) -> Option<Seq<char>>;

/// `String::from_utf16`: trusted to give [`utf16_text`] of the units, which
/// depends on them alone, with its error taken as none.
#[verifier::external_body]
fn string_from_utf16(units: &[u16]) -> (r: Option<String>)
    ensures
        match r {
            Some(t) => utf16_text(units@) == Some(t@),
            None => utf16_text(units@) is None,
        },
{
    String::from_utf16(units).ok()
}

/// The bytes as UTF-8 text, in the form `{:?}` gives a string.
pub open spec fn bytes_debug(b: Seq<u8>) -> Seq<char> {
    str_debug(decode_utf8(b))
}

/// Whether an object has a text form: every string, command and name in it
/// is UTF-8 (the text form of other bytes is refused), and it holds no real
/// number (this library does not format floating point).
pub closed spec fn has_text(p: Primitives) -> bool
    decreases p, 0nat,
{
    match p {
        Primitives::Str(v) => valid_utf8(v@),
        Primitives::Cmd(v) => valid_utf8(v@),
        Primitives::Name(n) => valid_utf8(n.0@),
        Primitives::Real(_) => false,
        Primitives::Array(v) => items_have_text(v@),
        Primitives::Dict(d) => dict_has_text(d),
        _ => true,
    }
}

/// Every object of the sequence has a text form.
pub closed spec fn items_have_text(s: Seq<Primitives>) -> bool
    decreases s, 1nat,
{
    if s.len() == 0 {
        true
    } else {
        items_have_text(s.drop_last()) && has_text(s.last())
    }
}

/// Every key and value of the dictionary has a text form.
pub closed spec fn dict_has_text(d: Dict) -> bool
    decreases d, 1nat,
{
    forall|i: int|
        0 <= i < d._map@.len() ==> valid_utf8(#[trigger] d._map@[i].0.0@) && has_text(d._map@[i].1)
}

/// The debug text of a name: `Name("...")`.
pub open spec fn name_text(n: Seq<u8>) -> Seq<char> {
    "Name("@ + bytes_debug(n) + ")"@
}

/// The debug text of an object, as `{:?}` shows it: the kind, then its
/// contents in brackets; strings, commands and names as quoted text, 16-bit
/// strings as the result of decoding them, a reference as its two numbers,
/// an array as its items in square brackets, a dictionary as its entries in
/// curly brackets (in the order they are held) and its object id.
pub closed spec fn prim_text(p: Primitives) -> Seq<char>
    decreases p, 0nat,
{
    match p {
        Primitives::Null => "Null"@,
        Primitives::Int(n) => "Int("@ + int_chars(n as int) + ")"@,
        Primitives::Str(v) => "Str("@ + bytes_debug(v@) + ")"@,
        Primitives::HexStr(v) => "HexStr("@ + match utf16_text(v@) {
            Some(t) => "Ok("@ + str_debug(t) + ")"@,
            None => "Err(FromUtf16Error(()))"@,
        } + ")"@,
        Primitives::Real(_) => Seq::empty(),
        Primitives::Name(n) => "Name("@ + name_text(n.0@) + ")"@,
        Primitives::Array(v) => "Array(["@ + items_text(v@) + "])"@,
        Primitives::Dict(d) => "Dict("@ + dict_text(d) + ")"@,
        Primitives::Ref(r) => "Ref("@ + int_chars(r.num as int) + ", "@ + int_chars(r.gen as int)
            + ")"@,
        Primitives::Cmd(v) => "Cmd("@ + bytes_debug(v@) + ")"@,
        Primitives::EOF => "EOF"@,
    }
}

/// The debug texts of the objects, separated by `, `.
pub closed spec fn items_text(s: Seq<Primitives>) -> Seq<char>
    decreases s, 1nat,
{
    if s.len() == 0 {
        Seq::empty()
    } else if s.len() == 1 {
        prim_text(s[0])
    } else {
        items_text(s.drop_last()) + ", "@ + prim_text(s.last())
    }
}

/// The debug text of a dictionary: `Dict { _map: {key: value, ...},
/// obj_id: ... }`.
pub closed spec fn dict_text(d: Dict) -> Seq<char>
    decreases d, 1nat,
{
    "Dict { _map: {"@ + entries_text(d._map@) + "}, obj_id: "@ + match d.obj_id {
        None => "None"@,
        Some(t) => "Some("@ + str_debug(t@) + ")"@,
    } + " }"@
}

/// The entries as `key: value`, separated by `, `.
pub closed spec fn entries_text(s: Seq<(Name, Primitives)>) -> Seq<char>
    decreases s, 1nat,
{
    if s.len() == 0 {
        Seq::empty()
    } else if s.len() == 1 {
        name_text(s[0].0.0@) + ": "@ + prim_text(s[0].1)
    } else {
        entries_text(s.drop_last()) + ", "@ + name_text(s.last().0.0@) + ": "@ + prim_text(
            s.last().1,
        )
    }
}

/// Appends the bytes in the form `{:?}` gives a string; false where they are
/// not UTF-8.
fn append_bytes_debug(s: &mut String, b: &[u8]) -> (ok: bool)
    ensures
        ok == valid_utf8(b@),
        ok ==> final(s)@ == old(s)@ + bytes_debug(b@),
{
    match str_from_utf8(b) {
        Some(t) => {
            proof {
                encode_utf8_decode_utf8(t@);
            }
            let d = debug_str(t);
            s.append(d.as_str());
            true
        },
        None => false,
    }
}

/// Appends the debug text of `p`; false where it has none.
fn append_prim(s: &mut String, p: &Primitives) -> (ok: bool)
    ensures
        ok == has_text(*p),
        ok ==> final(s)@ == old(s)@ + prim_text(*p),
    decreases p, 0nat,
{
    match p {
        Primitives::Null => {
            s.append("Null");
            true
        },
        Primitives::Int(n) => {
            s.append("Int(");
            append_int(s, *n);
            s.append(")");
            true
        },
        Primitives::Str(v) => {
            s.append("Str(");
            if !append_bytes_debug(s, v.as_slice()) {
                return false;
            }
            s.append(")");
            true
        },
        Primitives::HexStr(v) => {
            s.append("HexStr(");
            match string_from_utf16(v.as_slice()) {
                Some(t) => {
                    s.append("Ok(");
                    let d = debug_str(t.as_str());
                    s.append(d.as_str());
                    s.append(")");
                },
                None => {
                    s.append("Err(FromUtf16Error(()))");
                },
            }
            s.append(")");
            true
        },
        Primitives::Real(_) => false,
        Primitives::Name(n) => {
            s.append("Name(");
            s.append("Name(");
            if !append_bytes_debug(s, n.0.as_slice()) {
                return false;
            }
            s.append(")");
            s.append(")");
            true
        },
        Primitives::Array(v) => {
            s.append("Array([");
            let ghost s0 = s@;
            let mut i: usize = 0;
            while i < v.len()
                invariant
                    i <= v@.len(),
                    *p == Primitives::Array(*v),
                    s@ == s0 + items_text(v@.take(i as int)),
                    items_have_text(v@.take(i as int)),
                decreases v@.len() - i,
            {
                proof {
                    assert(decreases_to!(*v => v@[i as int]));
                    let ghost arr = Primitives::Array(*v);
                    assert(decreases_to!(arr => arr->Array_0));
                    assert(decreases_to!(*p => v@[i as int]));
                }
                let ghost before = s@;
                if i > 0 {
                    s.append(", ");
                }
                if !append_prim(s, &v[i]) {
                    proof {
                        lemma_items_have_text(v@);
                    }
                    return false;
                }
                assert(v@.take(i + 1).drop_last() == v@.take(i as int));
                assert(v@.take(i + 1).last() == v@[i as int]);
                i = i + 1;
            }
            assert(v@.take(v@.len() as int) == v@);
            s.append("])");
            true
        },
        Primitives::Dict(d) => {
            s.append("Dict(");
            if !append_dict(s, d) {
                return false;
            }
            s.append(")");
            true
        },
        Primitives::Ref(r) => {
            s.append("Ref(");
            append_int(s, r.num as i64);
            s.append(", ");
            append_int(s, r.gen as i64);
            s.append(")");
            true
        },
        Primitives::Cmd(v) => {
            s.append("Cmd(");
            if !append_bytes_debug(s, v.as_slice()) {
                return false;
            }
            s.append(")");
            true
        },
        Primitives::EOF => {
            s.append("EOF");
            true
        },
    }
}

/// Every object of a sequence has a text form exactly when each has one.
proof fn lemma_items_have_text(s: Seq<Primitives>)
    ensures
        items_have_text(s) <==> forall|i: int| 0 <= i < s.len() ==> has_text(#[trigger] s[i]),
    decreases s.len(),
{
    if s.len() > 0 {
        lemma_items_have_text(s.drop_last());
        assert forall|i: int| 0 <= i < s.len() - 1 implies s.drop_last()[i] == s[i] by {}
        if items_have_text(s) {
            assert forall|i: int| 0 <= i < s.len() implies has_text(#[trigger] s[i]) by {
                if i < s.len() - 1 {
                    assert(s.drop_last()[i] == s[i]);
                }
            }
        }
        if forall|i: int| 0 <= i < s.len() ==> has_text(#[trigger] s[i]) {
            assert(has_text(s[s.len() - 1]));
            assert forall|i: int| 0 <= i < s.drop_last().len() implies has_text(
                #[trigger] s.drop_last()[i],
            ) by {
                assert(s.drop_last()[i] == s[i]);
            }
        }
    }
}

/// Appends the debug text of a dictionary; false where it has none.
pub(crate) fn append_dict(s: &mut String, d: &Dict) -> (ok: bool)
    ensures
        ok == dict_has_text(*d),
        ok ==> final(s)@ == old(s)@ + dict_text(*d),
    decreases d, 1nat,
{
    s.append("Dict { _map: {");
    let ghost s0 = s@;
    let mut i: usize = 0;
    while i < d._map.len()
        invariant
            i <= d._map@.len(),
            s@ == s0 + entries_text(d._map@.take(i as int)),
            forall|j: int|
                0 <= j < i ==> valid_utf8(#[trigger] d._map@[j].0.0@) && has_text(d._map@[j].1),
        decreases d._map@.len() - i,
    {
        assert(forall|j: int| 0 <= j < i ==> valid_utf8(#[trigger] d._map@[j].0.0@) && has_text(d._map@[j].1));
        let ghost before = s@;
        if i > 0 {
            s.append(", ");
        }
        let ghost sep = if i > 0 { ", "@ } else { Seq::<char>::empty() };
        assert(s@ == before + sep);
        s.append("Name(");
        if !append_bytes_debug(s, d._map[i].0.0.as_slice()) {
            return false;
        }
        s.append(")");
        s.append(": ");
        assert(forall|j: int| 0 <= j < i ==> valid_utf8(#[trigger] d._map@[j].0.0@) && has_text(d._map@[j].1));
        if !append_prim(s, &d._map[i].1) {
            return false;
        }
        assert(d._map@.take(i + 1).drop_last() == d._map@.take(i as int));
        assert(d._map@.take(i + 1).last() == d._map@[i as int]);
        assert(valid_utf8(d._map@[i as int].0.0@) && has_text(d._map@[i as int].1));
        let ghost e = d._map@[i as int];
        assert(s@ =~= before + sep + (name_text(e.0.0@) + ": "@ + prim_text(e.1)));
        assert(entries_text(d._map@.take(i + 1)) =~= entries_text(d._map@.take(i as int)) + sep + (
        name_text(e.0.0@) + ": "@ + prim_text(e.1)));
        assert forall|j: int| 0 <= j < i + 1 implies valid_utf8(#[trigger] d._map@[j].0.0@)
            && has_text(d._map@[j].1) by {
            if j == i {
                assert(valid_utf8(d._map@[i as int].0.0@) && has_text(d._map@[i as int].1));
            }
        }
        i = i + 1;
    }
    assert(d._map@.take(d._map@.len() as int) == d._map@);
    s.append("}, obj_id: ");
    match &d.obj_id {
        None => {
            s.append("None");
        },
        Some(t) => {
            s.append("Some(");
            let e = debug_str(t.as_str());
            s.append(e.as_str());
            s.append(")");
        },
    }
    s.append(" }");
    true
}

impl Primitives {
    /// The object's debug text, as `{:?}` shows it (see [`prim_text`]); none
    /// where it holds bytes that are not UTF-8 or a real number.
    pub fn debug_text(&self) -> (r: Option<String>)
        ensures
            r is Some <==> has_text(*self),
            r matches Some(t) ==> t@ == prim_text(*self),
    {
        let mut s = String::new();
        if append_prim(&mut s, self) {
            Some(s)
        } else {
            None
        }
    }
}

impl Dict {
    /// The dictionary's debug text (see [`dict_text`]); none where a key or
    /// value has no text form.
    pub fn debug_text(&self) -> (r: Option<String>)
        ensures
            r is Some <==> dict_has_text(*self),
            r matches Some(t) ==> t@ == dict_text(*self),
    {
        let mut s = String::new();
        if append_dict(&mut s, self) {
            Some(s)
        } else {
            None
        }
    }
}

impl Name {
    /// The name's debug text, `Name("...")`; none where it is not UTF-8.
    pub fn debug_text(&self) -> (r: Option<String>)
        ensures
            r is Some <==> valid_utf8(self.0@),
            r matches Some(t) ==> t@ == name_text(self.0@),
    {
        let mut s = String::new();
        s.append("Name(");
        if !append_bytes_debug(&mut s, self.0.as_slice()) {
            return None;
        }
        s.append(")");
        Some(s)
    }
}

} // verus!

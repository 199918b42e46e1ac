use vstd::prelude::*;
use vstd::string::StringExecFns;
use vstd::utf8::{decode_utf8, valid_utf8};

use crate::trusted::{spec_utf8_lossy, utf8_lossy};

verus! {

/// What a bencoded object denotes.
pub enum Value {
    Number(i64),
    ByteArray(Seq<u8>),
    List(Seq<Node>),
    Dictionary(Map<Seq<u8>, Node>),
}

/// A decoded object: what it denotes, and the exact bytes it was decoded from.
pub struct Node {
    pub value: Value,
    pub bytes: Seq<u8>,
}

#[derive(Debug)]
pub enum ObjectType {
    Number(i64),
    ByteArray(Vec<u8>),
    List(Vec<Object>),
    Dictionary(Dictionary),
}

#[derive(Debug)]
pub struct Object {
    object_type: ObjectType,
    bytes: Vec<u8>,
}

/// A map from byte-string keys to objects; no key occurs twice.
#[derive(Debug)]
pub struct Dictionary {
    entries: Vec<(Vec<u8>, Object)>,
}

impl ObjectType {
    pub open spec fn value(self) -> Value
        decreases self,
    {
        match self {
            ObjectType::Number(n) => Value::Number(n),
            ObjectType::ByteArray(b) => Value::ByteArray(b@),
            ObjectType::List(l) => Value::List(nodes_of(l@)),
            ObjectType::Dictionary(d) => Value::Dictionary(d.map()),
        }
    }
}

/// The nodes of a sequence of objects.
pub open spec fn nodes_of(l: Seq<Object>) -> Seq<Node>
    decreases l,
{
    if l.len() == 0 {
        Seq::empty()
    } else {
        nodes_of(l.drop_last()).push(l.last().node())
    }
}

/// The map that a sequence of entries denotes, a later entry overriding an earlier one.
pub open spec fn entries_map(e: Seq<(Vec<u8>, Object)>) -> Map<Seq<u8>, Node>
    decreases e,
{
    if e.len() == 0 {
        Map::empty()
    } else {
        entries_map(e.drop_last()).insert(e.last().0@, e.last().1.node())
    }
}

impl Object {
    pub closed spec fn node(self) -> Node
        decreases self,
    {
        Node { value: self.object_type.value(), bytes: self.bytes@ }
    }
}

impl View for Object {
    type V = Node;

    open spec fn view(&self) -> Node {
        self.node()
    }
}

impl Dictionary {
    pub closed spec fn map(self) -> Map<Seq<u8>, Node>
        decreases self,
    {
        entries_map(self.entries@)
    }
}

impl View for Dictionary {
    type V = Map<Seq<u8>, Node>;

    open spec fn view(&self) -> Map<Seq<u8>, Node> {
        self.map()
    }
}


impl Object {
    pub fn new(object_type: ObjectType, bytes: Vec<u8>) -> (res: Self)
        ensures
            res@ == (Node { value: object_type.value(), bytes: bytes@ }),
    {
        proof {
            reveal_with_fuel(Object::node, 1);
        }
        Self { object_type, bytes }
    }

    pub fn object_type(&self) -> (res: &ObjectType)
        ensures
            res.value() == self@.value,
    {
        &self.object_type
    }

    pub fn bytes(&self) -> (res: &[u8])
        ensures
            res@ == self@.bytes,
    {
        self.bytes.as_slice()
    }
}

/// The nodes of a sequence of objects are the objects' nodes, one for one.
pub proof fn lemma_nodes_of(l: Seq<Object>)
    ensures
        nodes_of(l).len() == l.len(),
        forall|i: int| 0 <= i < l.len() ==> #[trigger] nodes_of(l)[i] == l[i]@,
    decreases l.len(),
{
    if l.len() > 0 {
        lemma_nodes_of(l.drop_last());
        assert forall|i: int| 0 <= i < l.len() implies #[trigger] nodes_of(l)[i] == l[i]@ by {
            if i < l.len() - 1 {
                assert(nodes_of(l.drop_last())[i] == l.drop_last()[i]@);
            }
        }
    }
}

/// Whether the keys of `e` are pairwise distinct.
pub open spec fn keys_distinct(e: Seq<(Vec<u8>, Object)>) -> bool {
    forall|i: int, j: int| 0 <= i < j < e.len() ==> e[i].0@ != e[j].0@
}

/// The map of entries holds a key exactly when some entry has it, and with
/// distinct keys maps it to that entry's object.
pub proof fn lemma_entries_map(e: Seq<(Vec<u8>, Object)>)
    ensures
        forall|k: Seq<u8>|
            #[trigger] entries_map(e).contains_key(k) <==> exists|i: int| 0 <= i < e.len() && e[i].0@ == k,
        keys_distinct(e) ==> forall|i: int|
            0 <= i < e.len() ==> #[trigger] entries_map(e)[e[i].0@] == e[i].1@,
    decreases e.len(),
{
    if e.len() > 0 {
        let p = e.drop_last();
        lemma_entries_map(p);
        assert(entries_map(e) == entries_map(p).insert(e.last().0@, e.last().1@));
        assert forall|k: Seq<u8>|
            #[trigger] entries_map(e).contains_key(k) <==> exists|i: int| 0 <= i < e.len() && e[i].0@ == k by {
            if entries_map(e).contains_key(k) && k != e.last().0@ {
                assert(entries_map(p).contains_key(k));
                let i = choose|i: int| 0 <= i < p.len() && p[i].0@ == k;
                assert(e[i].0@ == k);
            }
            if exists|i: int| 0 <= i < e.len() && e[i].0@ == k {
                let i = choose|i: int| 0 <= i < e.len() && e[i].0@ == k;
                if i < p.len() {
                    assert(p[i].0@ == k);
                }
            }
        }
        if keys_distinct(e) {
            assert(keys_distinct(p));
            assert forall|i: int| 0 <= i < e.len() implies #[trigger] entries_map(e)[e[i].0@] == e[i].1@ by {
                if i < p.len() {
                    assert(p[i] == e[i]);
                    assert(entries_map(p)[p[i].0@] == p[i].1@);
                }
            }
        }
    }
}

impl Dictionary {
    #[verifier::type_invariant]
    spec fn distinct_keys(self) -> bool {
        keys_distinct(self.entries@)
    }

    pub fn new() -> (res: Self)
        ensures
            res@ == Map::<Seq<u8>, Node>::empty(),
    {
        let res = Dictionary { entries: Vec::new() };
        assert(res@ =~= Map::<Seq<u8>, Node>::empty());
        res
    }

    /// The position of the entry with key `key`, if any.
    fn position(&self, key: &[u8]) -> (res: Option<usize>)
        ensures
            match res {
                Some(i) => i < self.entries@.len() && self.entries@[i as int].0@ == key@,
                None => forall|i: int| 0 <= i < self.entries@.len() ==> self.entries@[i].0@ != key@,
            },
    {
        let mut i: usize = 0;
        while i < self.entries.len()
            invariant
                i <= self.entries@.len(),
                forall|j: int| 0 <= j < i ==> self.entries@[j].0@ != key@,
            decreases self.entries@.len() - i,
        {
            if bytes_eq(self.entries[i].0.as_slice(), key) {
                return Some(i);
            }
            i = i + 1;
        }
        None
    }

    /// The object stored under `key`, if any.
    pub fn get(&self, key: &[u8]) -> (res: Option<&Object>)
        ensures
            match res {
                Some(o) => self@.contains_key(key@) && o@ == self@[key@],
                None => !self@.contains_key(key@),
            },
    {
        proof {
            use_type_invariant(self);
            lemma_entries_map(self.entries@);
            assert(self@ == entries_map(self.entries@));
        }
        match self.position(key) {
            Some(i) => {
                assert(entries_map(self.entries@)[self.entries@[i as int].0@] == self.entries@[i as int].1@);
                Some(&self.entries[i].1)
            },
            None => None,
        }
    }

    /// Stores `value` under `key`, replacing what was stored there.
    pub fn insert(&mut self, key: Vec<u8>, value: Object)
        ensures
            final(self)@ == old(self)@.insert(key@, value@),
    {
        proof {
            use_type_invariant(&*self);
        }
        let mut entries: Vec<(Vec<u8>, Object)> = Vec::new();
        std::mem::swap(&mut entries, &mut self.entries);
        let ghost old_entries = entries@;
        let pos = {
            let d = Dictionary { entries };
            let p = d.position(key.as_slice());
            entries = d.entries;
            p
        };
        let ghost k = key@;
        let ghost v = value@;
        match pos {
            Some(i) => {
                entries.set(i, (key, value));
                proof {
                    let e = entries@;
                    assert(e == old_entries.update(i as int, e[i as int]));
                    assert(keys_distinct(e));
                    lemma_entries_map(old_entries);
                    lemma_entries_map(e);
                    assert(entries_map(e) =~= entries_map(old_entries).insert(k, v)) by {
                        assert forall|kk: Seq<u8>| entries_map(e).contains_key(kk) implies
                            entries_map(old_entries).insert(k, v).contains_key(kk) && entries_map(e)[kk]
                                == entries_map(old_entries).insert(k, v)[kk] by {
                            let j = choose|j: int| 0 <= j < e.len() && e[j].0@ == kk;
                            assert(entries_map(e)[e[j].0@] == e[j].1@);
                            if j != i {
                                assert(old_entries[j].0@ == kk);
                                assert(entries_map(old_entries)[old_entries[j].0@] == old_entries[j].1@);
                            }
                        }
                        assert forall|kk: Seq<u8>| entries_map(old_entries).insert(k, v).contains_key(kk)
                            implies entries_map(e).contains_key(kk) by {
                            if kk != k {
                                let j = choose|j: int| 0 <= j < old_entries.len() && old_entries[j].0@ == kk;
                                assert(e[j].0@ == kk);
                            } else {
                                assert(e[i as int].0@ == kk);
                            }
                        }
                    }
                }
            },
            None => {
                entries.push((key, value));
                proof {
                    let e = entries@;
                    assert(e.drop_last() =~= old_entries);
                    assert(keys_distinct(e));
                }
            },
        }
        self.entries = entries;
    }
}

/// Whether two byte strings are equal.
pub fn bytes_eq(a: &[u8], b: &[u8]) -> (res: bool)
    ensures
        res == (a@ == b@),
{
    if a.len() != b.len() {
        return false;
    }
    let mut i: usize = 0;
    while i < a.len()
        invariant
            a@.len() == b@.len(),
            i <= a@.len(),
            forall|j: int| 0 <= j < i ==> a@[j] == b@[j],
        decreases a@.len() - i,
    {
        if a[i] != b[i] {
            return false;
        }
        i = i + 1;
    }
    assert(a@ =~= b@);
    true
}


/// Why a value could not be taken from a dictionary.
#[derive(Debug)]
pub enum ExtractError {
    MissingKey(String),
    InvalidKey(String, String),
    InvalidUtf8(std::string::FromUtf8Error),
    InvalidPiecesLength(usize, usize),
}

impl From<std::string::FromUtf8Error> for ExtractError {
    fn from(err: std::string::FromUtf8Error) -> (res: ExtractError) {
        ExtractError::InvalidUtf8(err)
    }
}

impl vstd::std_specs::convert::FromSpecImpl<std::string::FromUtf8Error> for ExtractError {
    open spec fn obeys_from_spec() -> bool {
        true
    }

    open spec fn from_spec(v: std::string::FromUtf8Error) -> ExtractError {
        ExtractError::InvalidUtf8(v)
    }
}

/// A failure to take a value from a dictionary, as a value.
pub enum ExtractFailure {
    MissingKey(Seq<u8>),
    InvalidKey(Seq<u8>, Seq<char>),
    InvalidUtf8,
    InvalidPiecesLength(nat, nat),
}

impl ExtractError {
    /// Whether this error is the failure `f`.
    pub open spec fn is(self, f: ExtractFailure) -> bool {
        match (self, f) {
            (ExtractError::MissingKey(k), ExtractFailure::MissingKey(key)) => k@ == spec_utf8_lossy(key),
            (ExtractError::InvalidKey(k, t), ExtractFailure::InvalidKey(key, kind)) => k@ == spec_utf8_lossy(
                key,
            ) && t@ == kind,
            (ExtractError::InvalidUtf8(_), ExtractFailure::InvalidUtf8) => true,
            (ExtractError::InvalidPiecesLength(a, b), ExtractFailure::InvalidPiecesLength(x, y)) => a == x
                && b == y,
            _ => false,
        }
    }
}

/// The decimal digit `d` as a character.
pub open spec fn digit_char(d: nat) -> char {
    (48 + d) as char
}

/// The decimal numeral of `n`, most significant digit first.
pub open spec fn decimal(n: nat) -> Seq<char>
    decreases n,
{
    if n < 10 {
        seq![digit_char(n)]
    } else {
        decimal(n / 10).push(digit_char(n % 10))
    }
}

fn digit_str(d: usize) -> (res: &'static str)
    requires
        d < 10,
    ensures
        res@ == seq![digit_char(d as nat)],
{
    proof {
        reveal_strlit("0");
        reveal_strlit("1");
        reveal_strlit("2");
        reveal_strlit("3");
        reveal_strlit("4");
        reveal_strlit("5");
        reveal_strlit("6");
        reveal_strlit("7");
        reveal_strlit("8");
        reveal_strlit("9");
    }
    match d {
        0 => "0",
        1 => "1",
        2 => "2",
        3 => "3",
        4 => "4",
        5 => "5",
        6 => "6",
        7 => "7",
        8 => "8",
        _ => "9",
    }
}

/// `n` written in decimal.
pub fn decimal_string(n: u64) -> (res: String)
    ensures
        res@ == decimal(n as nat),
    decreases n,
{
    if n < 10 {
        digit_str(n as usize).to_owned()
    } else {
        let mut s = decimal_string(n / 10);
        s.append(digit_str((n % 10) as usize));
        s
    }
}

impl ExtractError {
    /// Whether `text` is how this error is shown to a user; an invalid UTF-8
    /// error is shown as `std` shows it.
    pub open spec fn shown_as(&self, text: String) -> bool {
        match self {
            ExtractError::MissingKey(k) => text@ == "Missing key '"@ + k@ + "'"@,
            ExtractError::InvalidKey(k, t) => text@ == "Key '"@ + k@ + "' is not a "@ + t@,
            ExtractError::InvalidUtf8(e) => vstd::string::to_string_from_display_ensures(e, text),
            ExtractError::InvalidPiecesLength(length, multiple) => text@ == "Input length ("@ + decimal(
                *length as nat,
            ) + ") is not a multiple of "@ + decimal(*multiple as nat),
        }
    }

    /// The error as text, as it is shown to a user.
    pub fn message(&self) -> (res: String)
        ensures
            self.shown_as(res),
    {
        match self {
            ExtractError::MissingKey(k) => {
                let mut s = "Missing key '".to_owned();
                s.append(k.as_str());
                s.append("'");
                s
            },
            ExtractError::InvalidKey(k, t) => {
                let mut s = "Key '".to_owned();
                s.append(k.as_str());
                s.append("' is not a ");
                s.append(t.as_str());
                s
            },
            ExtractError::InvalidUtf8(e) => e.to_string(),
            ExtractError::InvalidPiecesLength(length, multiple) => {
                let mut s = "Input length (".to_owned();
                s.append(decimal_string(*length as u64).as_str());
                s.append(") is not a multiple of ");
                s.append(decimal_string(*multiple as u64).as_str());
                s
            },
        }
    }
}

/// The value under `key`, if it is of the kind that `kind` names.
pub open spec fn lookup(m: Map<Seq<u8>, Node>, key: Seq<u8>, kind: Seq<char>) -> Result<Value, ExtractFailure> {
    if !m.contains_key(key) {
        Err(ExtractFailure::MissingKey(key))
    } else if kind_name(m[key].value) == kind {
        Ok(m[key].value)
    } else {
        Err(ExtractFailure::InvalidKey(key, kind))
    }
}

/// The name of a value's kind, as extraction errors give it.
pub open spec fn kind_name(v: Value) -> Seq<char> {
    match v {
        Value::Number(_) => "number"@,
        Value::ByteArray(_) => "byte array"@,
        Value::List(_) => "list"@,
        Value::Dictionary(_) => "dictionary"@,
    }
}

/// The number under `key`.
pub open spec fn spec_extract_num(m: Map<Seq<u8>, Node>, key: Seq<u8>) -> Result<i64, ExtractFailure> {
    match lookup(m, key, "number"@) {
        Ok(Value::Number(n)) => Ok(n),
        Ok(_) => Err(ExtractFailure::InvalidKey(key, "number"@)),
        Err(e) => Err(e),
    }
}

/// The byte string under `key`.
pub open spec fn spec_extract_bytes(m: Map<Seq<u8>, Node>, key: Seq<u8>) -> Result<Seq<u8>, ExtractFailure> {
    match lookup(m, key, "byte array"@) {
        Ok(Value::ByteArray(b)) => Ok(b),
        Ok(_) => Err(ExtractFailure::InvalidKey(key, "byte array"@)),
        Err(e) => Err(e),
    }
}

/// The text, UTF-8 encoded, under `key`.
pub open spec fn spec_extract_str(m: Map<Seq<u8>, Node>, key: Seq<u8>) -> Result<Seq<char>, ExtractFailure> {
    match spec_extract_bytes(m, key) {
        Ok(b) => if valid_utf8(b) {
            Ok(decode_utf8(b))
        } else {
            Err(ExtractFailure::InvalidUtf8)
        },
        Err(e) => Err(e),
    }
}

/// The list under `key`.
pub open spec fn spec_extract_list(m: Map<Seq<u8>, Node>, key: Seq<u8>) -> Result<Seq<Node>, ExtractFailure> {
    match lookup(m, key, "list"@) {
        Ok(Value::List(l)) => Ok(l),
        Ok(_) => Err(ExtractFailure::InvalidKey(key, "list"@)),
        Err(e) => Err(e),
    }
}

/// The dictionary under `key`.
pub open spec fn spec_extract_dict(m: Map<Seq<u8>, Node>, key: Seq<u8>) -> Result<Map<Seq<u8>, Node>, ExtractFailure> {
    match lookup(m, key, "dictionary"@) {
        Ok(Value::Dictionary(d)) => Ok(d),
        Ok(_) => Err(ExtractFailure::InvalidKey(key, "dictionary"@)),
        Err(e) => Err(e),
    }
}

fn get_value<'a>(dict: &'a Dictionary, key: &[u8]) -> (res: Result<&'a Object, ExtractError>)
    ensures
        match res {
            Ok(o) => dict@.contains_key(key@) && o@ == dict@[key@],
            Err(e) => !dict@.contains_key(key@) && e.is(ExtractFailure::MissingKey(key@)),
        },
{
    match dict.get(key) {
        Some(o) => Ok(o),
        None => Err(ExtractError::MissingKey(utf8_lossy(key))),
    }
}

pub fn extract_num(dict: &Dictionary, key: &[u8]) -> (res: Result<i64, ExtractError>)
    ensures
        match spec_extract_num(dict@, key@) {
            Ok(n) => res == Ok::<i64, ExtractError>(n),
            Err(f) => res matches Err(e) && e.is(f),
        },
{
    let value = get_value(dict, key)?;
    match value.object_type() {
        ObjectType::Number(num) => Ok(*num),
        _ => Err(ExtractError::InvalidKey(utf8_lossy(key), "number".to_owned())),
    }
}

pub fn extract_byte_array(dict: &Dictionary, key: &[u8]) -> (res: Result<Vec<u8>, ExtractError>)
    ensures
        match spec_extract_bytes(dict@, key@) {
            Ok(b) => res matches Ok(r) && r@ == b,
            Err(f) => res matches Err(e) && e.is(f),
        },
{
    let value = get_value(dict, key)?;
    match value.object_type() {
        ObjectType::ByteArray(b) => Ok(vstd::slice::slice_to_vec(b.as_slice())),
        _ => Err(ExtractError::InvalidKey(utf8_lossy(key), "byte array".to_owned())),
    }
}

pub fn extract_str(dict: &Dictionary, key: &[u8]) -> (res: Result<String, ExtractError>)
    ensures
        match spec_extract_str(dict@, key@) {
            Ok(t) => res matches Ok(r) && r@ == t,
            Err(f) => res matches Err(e) && e.is(f),
        },
{
    match String::from_utf8(extract_byte_array(dict, key)?) {
        Ok(s) => Ok(s),
        Err(err) => Err(ExtractError::InvalidUtf8(err)),
    }
}

pub fn extract_list<'a>(dict: &'a Dictionary, key: &[u8]) -> (res: Result<&'a Vec<Object>, ExtractError>)
    ensures
        match spec_extract_list(dict@, key@) {
            Ok(l) => res matches Ok(r) && nodes_of(r@) == l,
            Err(f) => res matches Err(e) && e.is(f),
        },
{
    let value = get_value(dict, key)?;
    match value.object_type() {
        ObjectType::List(l) => Ok(l),
        _ => Err(ExtractError::InvalidKey(utf8_lossy(key), "list".to_owned())),
    }
}

pub fn extract_dict<'a>(dict: &'a Dictionary, key: &[u8]) -> (res: Result<&'a Dictionary, ExtractError>)
    ensures
        match spec_extract_dict(dict@, key@) {
            Ok(d) => res matches Ok(r) && r@ == d,
            Err(f) => res matches Err(e) && e.is(f),
        },
{
    let value = get_value(dict, key)?;
    match value.object_type() {
        ObjectType::Dictionary(d) => Ok(d),
        _ => Err(ExtractError::InvalidKey(utf8_lossy(key), "dictionary".to_owned())),
    }
}

} // verus!

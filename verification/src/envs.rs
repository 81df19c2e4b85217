//! The variables of a profile: a map from names to values, and its
//! self-delimiting byte form.

use crate::error::FormatError;
use crate::table::assoc_map;
use crate::table::lemma_assoc_at;
use crate::table::lemma_assoc_push;
use crate::table::lemma_assoc_remove;
use crate::table::lemma_assoc_update;
use crate::table::Table;
use crate::text::is_valid_name;
use crate::text::valid_name;
use crate::wire::field;
use crate::wire::get_u64;
use crate::wire::lemma_split_field;
use crate::wire::lemma_text_round_trip;
use crate::wire::lemma_u64_round_trip;
use crate::wire::put_field;
use crate::wire::put_u64;
use crate::wire::read_field;
use crate::wire::read_text;
use crate::wire::split_field;
use crate::wire::text_of;
use crate::wire::u64_bytes;
use crate::wire::u64_of;
use vstd::prelude::*;
use vstd::string::StringExecFns;
use vstd::utf8::encode_utf8;

verus! {

/// A variable as a pair of texts: its name and its value.
pub type Entry = (Seq<char>, Seq<char>);

/// The names of `es`, in order.
pub open spec fn names(es: Seq<Entry>) -> Seq<Seq<char>> {
    Seq::new(es.len(), |i: int| es[i].0)
}

/// The values of `es`, in order.
pub open spec fn texts(es: Seq<Entry>) -> Seq<Seq<char>> {
    Seq::new(es.len(), |i: int| es[i].1)
}

/// What a map of variables may hold: no name twice, each name valid, and
/// every length within what eight bytes can count.
pub open spec fn valid_entries(es: Seq<Entry>) -> bool {
    &&& names(es).no_duplicates()
    &&& es.len() <= u64::MAX
    &&& forall|i: int|
        0 <= i < es.len() ==> {
            &&& valid_name(#[trigger] es[i].0)
            &&& encode_utf8(es[i].0).len() <= u64::MAX
            &&& encode_utf8(es[i].1).len() <= u64::MAX
        }
}

/// The map from each name in `es` to its value.
pub open spec fn entries_map(es: Seq<Entry>) -> Map<Seq<char>, Seq<char>> {
    assoc_map(names(es), texts(es))
}

/// The map of the first `i + 1` variables is the map of the first `i` with
/// the variable at `i` inserted, and that variable's name is new to it.
pub proof fn lemma_entries_map_step(es: Seq<Entry>, i: int)
    requires
        names(es).no_duplicates(),
        0 <= i < es.len(),
    ensures
        !entries_map(es.subrange(0, i)).contains_key(es[i].0),
        entries_map(es.subrange(0, i + 1)) == entries_map(es.subrange(0, i)).insert(
            es[i].0,
            es[i].1,
        ),
{
    let a = es.subrange(0, i);
    let b = es.subrange(0, i + 1);
    assert(names(b) =~= names(a).push(es[i].0));
    assert(texts(b) =~= texts(a).push(es[i].1));
    assert forall|x: int, y: int| 0 <= x < a.len() && 0 <= y < a.len() && x != y implies names(a)[x]
        != names(a)[y] by {
        assert(names(es)[x] != names(es)[y]);
    }
    if names(a).contains(es[i].0) {
        let j = names(a).index_of(es[i].0);
        assert(names(a)[j] == es[i].0);
        assert(names(es)[j] == names(es)[i]);
    }
    lemma_assoc_push(names(a), texts(a), es[i].0, es[i].1);
}

/// The map of no variables is empty, and the map of all is the whole map.
pub proof fn lemma_entries_map_ends(es: Seq<Entry>)
    ensures
        entries_map(es.subrange(0, 0)) == Map::<Seq<char>, Seq<char>>::empty(),
        es.subrange(0, es.len() as int) == es,
{
    assert(names(es.subrange(0, 0)) =~= Seq::<Seq<char>>::empty());
    assert(entries_map(es.subrange(0, 0)) =~= Map::<Seq<char>, Seq<char>>::empty());
    assert(es.subrange(0, es.len() as int) =~= es);
}

/// The bytes of one variable: its name as a field, then its value as a field.
pub open spec fn entry_bytes(e: Entry) -> Seq<u8> {
    field(encode_utf8(e.0)) + field(encode_utf8(e.1))
}

/// The bytes of the variables in `es`, one after the other.
pub open spec fn entries_bytes(es: Seq<Entry>) -> Seq<u8>
    decreases es.len(),
{
    if es.len() == 0 {
        Seq::empty()
    } else {
        entries_bytes(es.drop_last()) + entry_bytes(es.last())
    }
}

/// The byte form of `es`: how many variables there are, then each of them.
pub open spec fn serialized(es: Seq<Entry>) -> Seq<u8> {
    u64_bytes(es.len() as u64) + entries_bytes(es)
}

/// Reads `count` variables from `b` and appends them to `acc`.  Nothing may
/// follow the last one.
pub open spec fn parse_entries(b: Seq<u8>, count: nat, acc: Seq<Entry>) -> Result<
    Seq<Entry>,
    FormatError,
>
    decreases count,
{
    if count == 0 {
        if b.len() == 0 {
            Ok(acc)
        } else {
            Err(FormatError::Corrupt)
        }
    } else {
        match split_field(b) {
            None => Err(FormatError::Truncated),
            Some((name_bytes, rest)) => match split_field(rest) {
                None => Err(FormatError::Truncated),
                Some((value_bytes, tail)) => match (text_of(name_bytes), text_of(value_bytes)) {
                    (Some(name), Some(value)) => if valid_name(name) && !names(acc).contains(name) {
                        parse_entries(tail, (count - 1) as nat, acc.push((name, value)))
                    } else {
                        Err(FormatError::Corrupt)
                    },
                    _ => Err(FormatError::Corrupt),
                },
            },
        }
    }
}

/// The variables that `b` holds in byte form, or why it holds none.
pub open spec fn parsed(b: Seq<u8>) -> Result<Seq<Entry>, FormatError> {
    if b.len() < 8 {
        Err(FormatError::Truncated)
    } else {
        parse_entries(b.subrange(8, b.len() as int), u64_of(b) as nat, Seq::empty())
    }
}

/// The bytes of two lists of variables in a row are the bytes of the first
/// and then those of the second.
pub proof fn lemma_entries_bytes_concat(a: Seq<Entry>, b: Seq<Entry>)
    ensures
        entries_bytes(a + b) == entries_bytes(a) + entries_bytes(b),
    decreases b.len(),
{
    if b.len() == 0 {
        assert(a + b =~= a);
        assert(entries_bytes(a) + entries_bytes(b) =~= entries_bytes(a));
    } else {
        lemma_entries_bytes_concat(a, b.drop_last());
        assert((a + b).drop_last() =~= a + b.drop_last());
        assert((a + b).last() == b.last());
        assert(entries_bytes(a + b) =~= entries_bytes(a) + entries_bytes(b));
    }
}

proof fn lemma_regroup(front: Seq<u8>, middle: Seq<u8>, tail: Seq<u8>)
    ensures
        (front + middle) + tail == front + (middle + tail),
{
    assert((front + middle) + tail =~= front + (middle + tail));
}

proof fn lemma_parse_entry(
    name: Seq<char>,
    value: Seq<char>,
    tail: Seq<u8>,
    count: nat,
    acc: Seq<Entry>,
)
    requires
        valid_name(name),
        !names(acc).contains(name),
        encode_utf8(name).len() <= u64::MAX,
        encode_utf8(value).len() <= u64::MAX,
    ensures
        parse_entries(entry_bytes((name, value)) + tail, count + 1, acc) == parse_entries(
            tail,
            count,
            acc.push((name, value)),
        ),
{
    let front = field(encode_utf8(name));
    let middle = field(encode_utf8(value));
    lemma_regroup(front, middle, tail);
    lemma_split_field(encode_utf8(name), middle + tail);
    lemma_split_field(encode_utf8(value), tail);
    lemma_text_round_trip(name);
    lemma_text_round_trip(value);
    assert(entry_bytes((name, value)) + tail == front + (middle + tail));
}

proof fn lemma_parse_from(es: Seq<Entry>, i: int)
    requires
        valid_entries(es),
        0 <= i <= es.len(),
    ensures
        parse_entries(
            entries_bytes(es.subrange(i, es.len() as int)),
            (es.len() - i) as nat,
            es.subrange(0, i),
        ) == Ok::<Seq<Entry>, FormatError>(es),
    decreases es.len() - i,
{
    let n = es.len() as int;
    if i == n {
        assert(es.subrange(i, n).len() == 0);
        assert(es.subrange(0, i) =~= es);
    } else {
        let e = es[i];
        let later = es.subrange(i + 1, n);
        let acc = es.subrange(0, i);
        assert(es.subrange(i, n) =~= seq![e] + later);
        lemma_entries_bytes_concat(seq![e], later);
        assert(seq![e].drop_last() =~= Seq::<Entry>::empty());
        assert(entries_bytes(seq![e]) =~= entry_bytes(e)) by {
            reveal_with_fuel(entries_bytes, 2);
        }
        if names(acc).contains(e.0) {
            let j = names(acc).index_of(e.0);
            assert(names(acc)[j] == e.0);
            assert(names(es)[j] == names(es)[i]);
        }
        assert(acc.push(e) =~= es.subrange(0, i + 1));
        assert(e == (e.0, e.1));
        lemma_parse_entry(e.0, e.1, entries_bytes(later), (n - i - 1) as nat, acc);
        lemma_parse_from(es, i + 1);
    }
}

/// Reading the byte form of a valid list of variables gives the list back.
pub proof fn lemma_parse_serialized(es: Seq<Entry>)
    requires
        valid_entries(es),
    ensures
        parsed(serialized(es)) == Ok::<Seq<Entry>, FormatError>(es),
{
    let b = serialized(es);
    lemma_u64_round_trip(es.len() as u64);
    assert forall|i: int| 0 <= i < 8 implies b[i] == u64_bytes(es.len() as u64)[i] by {}
    assert(u64_of(b) == es.len());
    assert(b.subrange(8, b.len() as int) =~= entries_bytes(es));
    assert(es.subrange(0, es.len() as int) =~= es);
    assert(es.subrange(0, 0) =~= Seq::<Entry>::empty());
    lemma_parse_from(es, 0);
}

/// The lines `NAME=VALUE`, one for each variable of `es`, each closed by a
/// line feed.
pub open spec fn export_text(es: Seq<Entry>) -> Seq<char>
    decreases es.len(),
{
    if es.len() == 0 {
        Seq::empty()
    } else {
        export_text(es.drop_last()) + es.last().0 + seq!['='] + es.last().1 + seq!['\n']
    }
}

/// A variable: a name and its value.
#[derive(Clone, Debug)]
pub struct EnvVar {
    pub key: String,
    pub value: String,
}

/// A map from variable names to values.
///
/// The variables are kept in the order in which they were first set.
#[derive(Clone, Debug)]
pub struct EnvMap {
    vars: Table<String>,
}

impl View for EnvMap {
    type V = Map<Seq<char>, Seq<char>>;

    open spec fn view(&self) -> Map<Seq<char>, Seq<char>> {
        entries_map(self.entries())
    }
}

impl EnvMap {
    /// The variables as pairs of texts, in order.
    pub closed spec fn entries(&self) -> Seq<Entry> {
        Seq::new(self.vars.keys().len(), |i: int| (self.vars.keys()[i], self.vars.values()[i]@))
    }

    /// No name is bound twice and every name is valid.
    pub open spec fn wf(&self) -> bool {
        valid_entries(self.entries())
    }

    proof fn lemma_inner(&self)
        ensures
            self.vars.keys() == names(self.entries()),
            self.vars.keys().len() == self.vars.values().len(),
            self.wf() ==> self.vars.wf(),
            texts(self.entries()) == Seq::new(
                self.vars.values().len(),
                |i: int| self.vars.values()[i]@,
            ),
    {
        self.vars.lemma_same_length();
        assert(self.vars.keys() =~= names(self.entries()));
        assert(texts(self.entries()) =~= Seq::new(
            self.vars.values().len(),
            |i: int| self.vars.values()[i]@,
        ));
    }

    /// The map without variables.
    pub fn new() -> (envs: Self)
        ensures
            envs.wf(),
            envs.entries() == Seq::<Entry>::empty(),
            envs@ == Map::<Seq<char>, Seq<char>>::empty(),
    {
        let envs = EnvMap { vars: Table::new() };
        assert(envs.entries() =~= Seq::<Entry>::empty());
        assert(names(envs.entries()) =~= Seq::<Seq<char>>::empty());
        assert(envs@ =~= Map::<Seq<char>, Seq<char>>::empty());
        envs
    }

    /// The number of variables.
    pub fn len(&self) -> (n: usize)
        ensures
            n == self.entries().len(),
    {
        self.vars.len()
    }

    /// Whether there is no variable.
    pub fn is_empty(&self) -> (empty: bool)
        ensures
            empty == (self.entries().len() == 0),
    {
        self.vars.len() == 0
    }

    /// The name of the variable at position `i`.
    pub fn key_at(&self, i: usize) -> (key: &String)
        requires
            i < self.entries().len(),
        ensures
            key@ == self.entries()[i as int].0,
    {
        self.vars.key_at(i)
    }

    /// The value of the variable at position `i`.
    pub fn value_at(&self, i: usize) -> (value: &String)
        requires
            i < self.entries().len(),
        ensures
            value@ == self.entries()[i as int].1,
    {
        proof {
            self.vars.lemma_same_length();
        }
        self.vars.value_at(i)
    }

    /// Whether a variable of that name is set.
    pub fn contains_key(&self, key: &str) -> (found: bool)
        requires
            self.wf(),
        ensures
            found == self@.contains_key(key@),
    {
        proof {
            self.lemma_inner();
        }
        self.vars.find(key).is_some()
    }

    /// The value of the variable `key`, if it is set.
    pub fn get(&self, key: &str) -> (value: Option<&String>)
        requires
            self.wf(),
        ensures
            match value {
                Some(v) => self@.contains_key(key@) && self@[key@] == v@,
                None => !self@.contains_key(key@),
            },
    {
        proof {
            self.lemma_inner();
        }
        match self.vars.find(key) {
            Some(i) => {
                proof {
                    lemma_assoc_at(names(self.entries()), texts(self.entries()), i as int);
                }
                Some(self.vars.value_at(i))
            },
            None => None,
        }
    }

    /// Sets the variable `key` to `value`, whether or not it was set before.
    /// A `key` that is no valid name is refused, and nothing changes.
    pub fn insert(&mut self, key: String, value: String) -> (set: bool)
        requires
            old(self).wf(),
        ensures
            final(self).wf(),
            set == valid_name(key@),
            set ==> final(self)@ == old(self)@.insert(key@, value@),
            set && !old(self)@.contains_key(key@) ==> final(self).entries() == old(self).entries().push(
                (key@, value@),
            ),
            set && old(self)@.contains_key(key@) ==> final(self).entries() == old(self).entries().update(names(old(self).entries()).index_of(key@), (key@, value@)),
            !set ==> final(self).entries() == old(self).entries(),
    {
        if !is_valid_name(key.as_str()) {
            return false;
        }
        let ghost es = self.entries();
        let ghost k = key@;
        let ghost v = value@;
        proof {
            self.lemma_inner();
        }
        let key_bytes = key.as_str().as_bytes();
        let value_bytes = value.as_str().as_bytes();
        let key_len = key_bytes.len();
        let value_len = value_bytes.len();
        assert(encode_utf8(k).len() == key_len);
        assert(encode_utf8(v).len() == value_len);
        self.vars.insert(key, value);
        let n = self.vars.len();
        proof {
            self.lemma_inner();
            let es2 = self.entries();
            if names(es).contains(k) {
                let i = names(es).index_of(k);
                assert(names(es)[i] == k);
                assert(es2 =~= es.update(i, (k, v)));
                assert(texts(es2) =~= texts(es).update(i, v));
                assert(names(es2) =~= names(es));
                lemma_assoc_update(names(es), texts(es), i, v);
                assert forall|j: int| 0 <= j < es2.len() implies valid_name(#[trigger] es2[j].0)
                    && encode_utf8(es2[j].0).len() <= u64::MAX && encode_utf8(es2[j].1).len()
                    <= u64::MAX by {
                    if j != i {
                        assert(es2[j] == es[j]);
                    }
                }
            } else {
                assert(es2 =~= es.push((k, v)));
                assert(names(es2) =~= names(es).push(k));
                assert(texts(es2) =~= texts(es).push(v));
                lemma_assoc_push(names(es), texts(es), k, v);
                assert forall|j: int| 0 <= j < es2.len() implies valid_name(#[trigger] es2[j].0)
                    && encode_utf8(es2[j].0).len() <= u64::MAX && encode_utf8(es2[j].1).len()
                    <= u64::MAX by {
                    if j < es.len() {
                        assert(es2[j] == es[j]);
                    }
                }
            }
            assert(es2.len() == n);
        }
        true
    }

    /// Takes the variable `key` out, if it is set, and hands back its value.
    pub fn remove(&mut self, key: &str) -> (value: Option<String>)
        requires
            old(self).wf(),
        ensures
            final(self).wf(),
            final(self)@ == old(self)@.remove(key@),
            match value {
                Some(v) => {
                    &&& old(self)@.contains_key(key@)
                    &&& old(self)@[key@] == v@
                    &&& final(self).entries() == old(self).entries().remove(
                        names(old(self).entries()).index_of(key@),
                    )
                },
                None => !old(self)@.contains_key(key@) && final(self).entries() == old(self).entries(),
            },
    {
        let ghost es = self.entries();
        proof {
            self.lemma_inner();
        }
        match self.vars.find(key) {
            Some(i) => {
                let value = self.vars.remove_at(i);
                proof {
                    self.lemma_inner();
                    let es2 = self.entries();
                    assert(es2 =~= es.remove(i as int));
                    assert(names(es2) =~= names(es).remove(i as int));
                    assert(texts(es2) =~= texts(es).remove(i as int));
                    lemma_assoc_remove(names(es), texts(es), i as int);
                    lemma_assoc_at(names(es), texts(es), i as int);
                    crate::table::lemma_index_of_unique(names(es), i as int);
                }
                Some(value)
            },
            None => {
                assert(self@ =~= self@.remove(key@));
                None
            },
        }
    }
}

impl EnvMap {
    /// A copy of the map.
    pub fn duplicate(&self) -> (copy: Self)
        requires
            self.wf(),
        ensures
            copy.wf(),
            copy.entries() == self.entries(),
    {
        let mut copy = EnvMap::new();
        let n = self.len();
        let mut i: usize = 0;
        while i < n
            invariant
                self.wf(),
                copy.wf(),
                n == self.entries().len(),
                0 <= i <= n,
                copy.entries() == self.entries().subrange(0, i as int),
            decreases n - i,
        {
            let ghost es = self.entries();
            let key = self.key_at(i).clone();
            let value = self.value_at(i).clone();
            proof {
                if copy@.contains_key(key@) {
                    let j = names(copy.entries()).index_of(key@);
                    assert(names(copy.entries())[j] == key@);
                    assert(names(es)[j] == names(es)[i as int]);
                }
            }
            copy.insert(key, value);
            assert(copy.entries() =~= es.subrange(0, i + 1));
            i += 1;
        }
        assert(self.entries().subrange(0, n as int) =~= self.entries());
        copy
    }

    /// The variables, in order.
    pub fn vars(&self) -> (list: Vec<EnvVar>)
        ensures
            list@.len() == self.entries().len(),
            forall|i: int|
                0 <= i < list@.len() ==> (#[trigger] list@[i]).key@ == self.entries()[i].0
                    && list@[i].value@ == self.entries()[i].1,
    {
        let mut list: Vec<EnvVar> = Vec::new();
        let n = self.len();
        let mut i: usize = 0;
        while i < n
            invariant
                n == self.entries().len(),
                0 <= i <= n,
                list@.len() == i,
                forall|j: int|
                    0 <= j < i ==> (#[trigger] list@[j]).key@ == self.entries()[j].0
                        && list@[j].value@ == self.entries()[j].1,
            decreases n - i,
        {
            list.push(EnvVar { key: self.key_at(i).clone(), value: self.value_at(i).clone() });
            i += 1;
        }
        list
    }

    /// The byte form of the map.
    pub fn to_bytes(&self) -> (bytes: Vec<u8>)
        ensures
            bytes@ == serialized(self.entries()),
    {
        let mut bytes: Vec<u8> = Vec::new();
        let n = self.len();
        put_u64(&mut bytes, n as u64);
        let mut i: usize = 0;
        assert(self.entries().subrange(0, 0) =~= Seq::<Entry>::empty());
        assert(bytes@ =~= u64_bytes(n as u64) + entries_bytes(self.entries().subrange(0, 0)));
        while i < n
            invariant
                n == self.entries().len(),
                0 <= i <= n,
                bytes@ == u64_bytes(n as u64) + entries_bytes(self.entries().subrange(0, i as int)),
            decreases n - i,
        {
            let ghost es = self.entries();
            let ghost before = bytes@;
            put_field(&mut bytes, self.key_at(i).as_str().as_bytes());
            put_field(&mut bytes, self.value_at(i).as_str().as_bytes());
            proof {
                let upto = es.subrange(0, i + 1);
                assert(upto.drop_last() =~= es.subrange(0, i as int));
                assert(upto.last() == es[i as int]);
                assert(bytes@ =~= before + entry_bytes(es[i as int]));
                assert(bytes@ =~= u64_bytes(n as u64) + entries_bytes(upto));
            }
            i += 1;
        }
        assert(self.entries().subrange(0, n as int) =~= self.entries());
        bytes
    }

    /// Reads a map from its byte form.
    pub fn from_bytes(data: &[u8]) -> (result: Result<EnvMap, FormatError>)
        ensures
            match result {
                Ok(envs) => envs.wf() && parsed(data@) == Ok::<Seq<Entry>, FormatError>(
                    envs.entries(),
                ),
                Err(e) => parsed(data@) == Err::<Seq<Entry>, FormatError>(e),
            },
    {
        if data.len() < 8 {
            return Err(FormatError::Truncated);
        }
        let count = get_u64(data, 0);
        assert(data@.subrange(0, data@.len() as int) =~= data@);
        let mut envs = EnvMap::new();
        let mut at: usize = 8;
        let mut done: u64 = 0;
        while done < count
            invariant
                8 <= at <= data@.len(),
                done <= count,
                envs.wf(),
                parsed(data@) == parse_entries(
                    data@.subrange(at as int, data@.len() as int),
                    (count - done) as nat,
                    envs.entries(),
                ),
            decreases count - done,
        {
            let (name_from, name_to) = match read_field(data, at) {
                Some(span) => span,
                None => {
                    return Err(FormatError::Truncated);
                },
            };
            let (value_from, value_to) = match read_field(data, name_to) {
                Some(span) => span,
                None => {
                    return Err(FormatError::Truncated);
                },
            };
            let name = match read_text(data, name_from, name_to) {
                Some(text) => text,
                None => {
                    return Err(FormatError::Corrupt);
                },
            };
            let value = match read_text(data, value_from, value_to) {
                Some(text) => text,
                None => {
                    return Err(FormatError::Corrupt);
                },
            };
            if !is_valid_name(name.as_str()) || envs.contains_key(name.as_str()) {
                return Err(FormatError::Corrupt);
            }
            envs.insert(name, value);
            at = value_to;
            done += 1;
        }
        if at != data.len() {
            return Err(FormatError::Corrupt);
        }
        assert(data@.subrange(at as int, data@.len() as int).len() == 0);
        Ok(envs)
    }

    /// The variables as lines `NAME=VALUE`.
    pub fn to_text(&self) -> (text: String)
        ensures
            text@ == export_text(self.entries()),
    {
        let mut text = String::new();
        let n = self.len();
        let mut i: usize = 0;
        assert(self.entries().subrange(0, 0) =~= Seq::<Entry>::empty());
        while i < n
            invariant
                n == self.entries().len(),
                0 <= i <= n,
                text@ == export_text(self.entries().subrange(0, i as int)),
            decreases n - i,
        {
            let ghost es = self.entries();
            let ghost before = text@;
            text.append(self.key_at(i).as_str());
            text.append("=");
            text.append(self.value_at(i).as_str());
            text.append("\n");
            proof {
                reveal_strlit("=");
                reveal_strlit("\n");
                assert("="@ =~= seq!['=']);
                assert("\n"@ =~= seq!['\n']);
                let upto = es.subrange(0, i + 1);
                assert(upto.drop_last() =~= es.subrange(0, i as int));
                assert(upto.last() == es[i as int]);
                assert(text@ =~= before + es[i as int].0 + seq!['='] + es[i as int].1 + seq!['\n']);
            }
            i += 1;
        }
        assert(self.entries().subrange(0, n as int) =~= self.entries());
        text
    }
}

} // verus!

//! Snapshots: what an environment held under the names of a profile before
//! the profile was loaded, and the byte form in which a snapshot is kept
//! from the load to the unload.

use crate::error::FormatError;
use crate::table::assoc_map;
use crate::table::lemma_assoc_at;
use crate::table::lemma_assoc_push;
use crate::table::Table;
use crate::text::is_valid_name;
use crate::text::valid_name;
use crate::wire::field;
use crate::wire::get_u64;
use crate::wire::lemma_split_field;
use crate::wire::lemma_text_round_trip;
use crate::wire::lemma_u64_round_trip;
use crate::wire::put_field;
use crate::wire::put_u64;
use crate::wire::read_field;
use crate::wire::read_text;
use crate::wire::split_field;
use crate::wire::text_of;
use crate::wire::u64_bytes;
use crate::wire::u64_of;
use vstd::prelude::*;
use vstd::utf8::encode_utf8;

verus! {

/// What an environment held under some names: a value, or nothing.
pub type Prior = Map<Seq<char>, Option<Seq<char>>>;

/// One record of a snapshot: a name, and what was set under it.
pub type PriorEntry = (Seq<char>, Option<Seq<char>>);

/// The text in an optional string.
pub open spec fn text_view(value: Option<String>) -> Option<Seq<char>> {
    match value {
        Some(s) => Some(s@),
        None => None,
    }
}

/// The names of `ps`, in order.
pub open spec fn prior_names(ps: Seq<PriorEntry>) -> Seq<Seq<char>> {
    Seq::new(ps.len(), |i: int| ps[i].0)
}

/// What `ps` records, in order.
pub open spec fn prior_values(ps: Seq<PriorEntry>) -> Seq<Option<Seq<char>>> {
    Seq::new(ps.len(), |i: int| ps[i].1)
}

/// What a snapshot may hold: no name twice, each name valid, and every
/// length within what eight bytes can count.
pub open spec fn valid_prior(ps: Seq<PriorEntry>) -> bool {
    &&& prior_names(ps).no_duplicates()
    &&& ps.len() <= u64::MAX
    &&& forall|i: int|
        0 <= i < ps.len() ==> {
            &&& valid_name(#[trigger] ps[i].0)
            &&& encode_utf8(ps[i].0).len() <= u64::MAX
            &&& ps[i].1 is Some ==> encode_utf8(ps[i].1->0).len() <= u64::MAX
        }
}

/// The bytes of one record: the name as a field, then a byte that is 1 where
/// a value was set and 0 where none was, then the value as a field where
/// there is one.
pub open spec fn record_bytes(p: PriorEntry) -> Seq<u8> {
    field(encode_utf8(p.0)) + match p.1 {
        Some(value) => seq![1u8] + field(encode_utf8(value)),
        None => seq![0u8],
    }
}

/// The bytes of the records in `ps`, one after the other.
pub open spec fn records_bytes(ps: Seq<PriorEntry>) -> Seq<u8>
    decreases ps.len(),
{
    if ps.len() == 0 {
        Seq::empty()
    } else {
        records_bytes(ps.drop_last()) + record_bytes(ps.last())
    }
}

/// The byte form of `ps`: how many records there are, then each of them.
pub open spec fn snapshot_bytes(ps: Seq<PriorEntry>) -> Seq<u8> {
    u64_bytes(ps.len() as u64) + records_bytes(ps)
}

/// Whether `name` can be appended to `acc` as the name of a record.
pub open spec fn fresh_name(acc: Seq<PriorEntry>, name: Seq<char>) -> bool {
    valid_name(name) && !prior_names(acc).contains(name)
}

/// Reads the first record of `b`: the record, and what follows it.
pub open spec fn first_record(b: Seq<u8>) -> Result<(PriorEntry, Seq<u8>), FormatError> {
    match split_field(b) {
        None => Err(FormatError::Truncated),
        Some((name_bytes, rest)) => if rest.len() == 0 {
            Err(FormatError::Truncated)
        } else if rest[0] == 0 {
            match text_of(name_bytes) {
                Some(name) => Ok(((name, None), rest.subrange(1, rest.len() as int))),
                None => Err(FormatError::Corrupt),
            }
        } else if rest[0] == 1 {
            match split_field(rest.subrange(1, rest.len() as int)) {
                None => Err(FormatError::Truncated),
                Some((value_bytes, tail)) => match (text_of(name_bytes), text_of(value_bytes)) {
                    (Some(name), Some(value)) => Ok(((name, Some(value)), tail)),
                    _ => Err(FormatError::Corrupt),
                },
            }
        } else {
            Err(FormatError::Corrupt)
        },
    }
}

/// Reads `count` records from `b` and appends them to `acc`.  No name may
/// come twice, and nothing may follow the last record.
pub open spec fn parse_records(b: Seq<u8>, count: nat, acc: Seq<PriorEntry>) -> Result<
    Seq<PriorEntry>,
    FormatError,
>
    decreases count,
{
    if count == 0 {
        if b.len() == 0 {
            Ok(acc)
        } else {
            Err(FormatError::Corrupt)
        }
    } else {
        match first_record(b) {
            Err(e) => Err(e),
            Ok((record, tail)) => if fresh_name(acc, record.0) {
                parse_records(tail, (count - 1) as nat, acc.push(record))
            } else {
                Err(FormatError::Corrupt)
            },
        }
    }
}

/// The records that `b` holds in byte form, or why it holds none.
pub open spec fn parsed_snapshot(b: Seq<u8>) -> Result<Seq<PriorEntry>, FormatError> {
    if b.len() < 8 {
        Err(FormatError::Truncated)
    } else {
        parse_records(b.subrange(8, b.len() as int), u64_of(b) as nat, Seq::empty())
    }
}

/// The bytes of two lists of records in a row are the bytes of the first and
/// then those of the second.
pub proof fn lemma_records_bytes_concat(a: Seq<PriorEntry>, b: Seq<PriorEntry>)
    ensures
        records_bytes(a + b) == records_bytes(a) + records_bytes(b),
    decreases b.len(),
{
    if b.len() == 0 {
        assert(a + b =~= a);
        assert(records_bytes(a) + records_bytes(b) =~= records_bytes(a));
    } else {
        lemma_records_bytes_concat(a, b.drop_last());
        assert((a + b).drop_last() =~= a + b.drop_last());
        assert((a + b).last() == b.last());
        assert(records_bytes(a + b) =~= records_bytes(a) + records_bytes(b));
    }
}

proof fn lemma_flagged(front: Seq<u8>, flag: u8, middle: Seq<u8>, tail: Seq<u8>)
    ensures
        (front + (seq![flag] + middle)) + tail == front + (seq![flag] + (middle + tail)),
        (seq![flag] + (middle + tail))[0] == flag,
        (seq![flag] + (middle + tail)).len() > 0,
        (seq![flag] + (middle + tail)).subrange(1, (seq![flag] + (middle + tail)).len() as int)
            == middle + tail,
{
    let rest = seq![flag] + (middle + tail);
    assert((front + (seq![flag] + middle)) + tail =~= front + rest);
    assert(rest.subrange(1, rest.len() as int) =~= middle + tail);
}

proof fn lemma_first_record_set(name: Seq<char>, value: Seq<char>, tail: Seq<u8>)
    requires
        encode_utf8(name).len() <= u64::MAX,
        encode_utf8(value).len() <= u64::MAX,
    ensures
        first_record(record_bytes((name, Some(value))) + tail) == Ok::<
            (PriorEntry, Seq<u8>),
            FormatError,
        >(((name, Some(value)), tail)),
{
    let front = field(encode_utf8(name));
    let middle = field(encode_utf8(value));
    let rest = seq![1u8] + (middle + tail);
    lemma_flagged(front, 1u8, middle, tail);
    lemma_split_field(encode_utf8(name), rest);
    lemma_split_field(encode_utf8(value), tail);
    lemma_text_round_trip(name);
    lemma_text_round_trip(value);
    assert(record_bytes((name, Some(value))) + tail == front + rest);
}

proof fn lemma_first_record_unset(name: Seq<char>, tail: Seq<u8>)
    requires
        encode_utf8(name).len() <= u64::MAX,
    ensures
        first_record(record_bytes((name, None)) + tail) == Ok::<
            (PriorEntry, Seq<u8>),
            FormatError,
        >(((name, None), tail)),
{
    let front = field(encode_utf8(name));
    let rest = seq![0u8] + (Seq::<u8>::empty() + tail);
    lemma_flagged(front, 0u8, Seq::<u8>::empty(), tail);
    assert(Seq::<u8>::empty() + tail =~= tail);
    assert(seq![0u8] + Seq::<u8>::empty() =~= seq![0u8]);
    lemma_split_field(encode_utf8(name), rest);
    lemma_text_round_trip(name);
    assert(record_bytes((name, None)) + tail == front + rest);
}

proof fn lemma_parse_record(p: PriorEntry, tail: Seq<u8>, count: nat, acc: Seq<PriorEntry>)
    requires
        fresh_name(acc, p.0),
        encode_utf8(p.0).len() <= u64::MAX,
        p.1 is Some ==> encode_utf8(p.1->0).len() <= u64::MAX,
    ensures
        parse_records(record_bytes(p) + tail, count + 1, acc) == parse_records(
            tail,
            count,
            acc.push(p),
        ),
{
    match p.1 {
        Some(value) => {
            assert(p == (p.0, Some(value)));
            lemma_first_record_set(p.0, value, tail);
        },
        None => {
            assert(p == (p.0, None::<Seq<char>>));
            lemma_first_record_unset(p.0, tail);
        },
    }
}

proof fn lemma_parse_records_from(ps: Seq<PriorEntry>, i: int)
    requires
        valid_prior(ps),
        0 <= i <= ps.len(),
    ensures
        parse_records(
            records_bytes(ps.subrange(i, ps.len() as int)),
            (ps.len() - i) as nat,
            ps.subrange(0, i),
        ) == Ok::<Seq<PriorEntry>, FormatError>(ps),
    decreases ps.len() - i,
{
    let n = ps.len() as int;
    if i == n {
        assert(ps.subrange(i, n).len() == 0);
        assert(ps.subrange(0, i) =~= ps);
    } else {
        let p = ps[i];
        let later = ps.subrange(i + 1, n);
        let acc = ps.subrange(0, i);
        assert(ps.subrange(i, n) =~= seq![p] + later);
        lemma_records_bytes_concat(seq![p], later);
        assert(seq![p].drop_last() =~= Seq::<PriorEntry>::empty());
        assert(records_bytes(seq![p]) =~= record_bytes(p)) by {
            reveal_with_fuel(records_bytes, 2);
        }
        if prior_names(acc).contains(p.0) {
            let j = prior_names(acc).index_of(p.0);
            assert(prior_names(acc)[j] == p.0);
            assert(prior_names(ps)[j] == prior_names(ps)[i]);
        }
        assert(acc.push(p) =~= ps.subrange(0, i + 1));
        lemma_parse_record(p, records_bytes(later), (n - i - 1) as nat, acc);
        lemma_parse_records_from(ps, i + 1);
    }
}

/// Reading the byte form of a valid list of records gives the list back.
pub proof fn lemma_parse_snapshot_bytes(ps: Seq<PriorEntry>)
    requires
        valid_prior(ps),
    ensures
        parsed_snapshot(snapshot_bytes(ps)) == Ok::<Seq<PriorEntry>, FormatError>(ps),
{
    let b = snapshot_bytes(ps);
    lemma_u64_round_trip(ps.len() as u64);
    assert forall|i: int| 0 <= i < 8 implies b[i] == u64_bytes(ps.len() as u64)[i] by {}
    assert(u64_of(b) == ps.len());
    assert(b.subrange(8, b.len() as int) =~= records_bytes(ps));
    assert(ps.subrange(0, ps.len() as int) =~= ps);
    assert(ps.subrange(0, 0) =~= Seq::<PriorEntry>::empty());
    lemma_parse_records_from(ps, 0);
}

/// The map from each name in `ps` to what is recorded for it.
pub open spec fn prior_map(ps: Seq<PriorEntry>) -> Prior {
    assoc_map(prior_names(ps), prior_values(ps))
}

/// The map of the first `i + 1` records is the map of the first `i` with the
/// record at `i` inserted, and that record's name is new to it.
pub proof fn lemma_prior_map_step(ps: Seq<PriorEntry>, i: int)
    requires
        prior_names(ps).no_duplicates(),
        0 <= i < ps.len(),
    ensures
        !prior_map(ps.subrange(0, i)).contains_key(ps[i].0),
        prior_map(ps.subrange(0, i + 1)) == prior_map(ps.subrange(0, i)).insert(ps[i].0, ps[i].1),
{
    let a = ps.subrange(0, i);
    let b = ps.subrange(0, i + 1);
    assert(prior_names(b) =~= prior_names(a).push(ps[i].0));
    assert(prior_values(b) =~= prior_values(a).push(ps[i].1));
    assert forall|x: int, y: int|
        0 <= x < a.len() && 0 <= y < a.len() && x != y implies prior_names(a)[x] != prior_names(
        a,
    )[y] by {
        assert(prior_names(ps)[x] != prior_names(ps)[y]);
    }
    if prior_names(a).contains(ps[i].0) {
        let j = prior_names(a).index_of(ps[i].0);
        assert(prior_names(a)[j] == ps[i].0);
        assert(prior_names(ps)[j] == prior_names(ps)[i]);
    }
    lemma_assoc_push(prior_names(a), prior_values(a), ps[i].0, ps[i].1);
}

/// What an environment held under the names of a profile before the profile
/// was loaded.
#[derive(Clone, Debug)]
pub struct Snapshot {
    prior: Table<Option<String>>,
}

impl View for Snapshot {
    type V = Prior;

    open spec fn view(&self) -> Prior {
        prior_map(self.entries())
    }
}

impl Snapshot {
    /// The records, in order.
    pub closed spec fn entries(&self) -> Seq<PriorEntry> {
        Seq::new(
            self.prior.keys().len(),
            |i: int| (self.prior.keys()[i], text_view(self.prior.values()[i])),
        )
    }

    /// No name is recorded twice and every name is valid.
    pub open spec fn wf(&self) -> bool {
        valid_prior(self.entries())
    }

    proof fn lemma_inner(&self)
        ensures
            self.prior.keys() == prior_names(self.entries()),
            self.prior.keys().len() == self.prior.values().len(),
            self.wf() ==> self.prior.wf(),
    {
        self.prior.lemma_same_length();
        assert(self.prior.keys() =~= prior_names(self.entries()));
    }

    /// The snapshot without records.
    pub fn new() -> (snapshot: Snapshot)
        ensures
            snapshot.wf(),
            snapshot.entries() == Seq::<PriorEntry>::empty(),
            snapshot@ == Map::<Seq<char>, Option<Seq<char>>>::empty(),
    {
        let snapshot = Snapshot { prior: Table::new() };
        assert(snapshot.entries() =~= Seq::<PriorEntry>::empty());
        assert(prior_names(snapshot.entries()) =~= Seq::<Seq<char>>::empty());
        assert(snapshot@ =~= Map::<Seq<char>, Option<Seq<char>>>::empty());
        snapshot
    }

    /// The number of records.
    pub fn len(&self) -> (n: usize)
        ensures
            n == self.entries().len(),
    {
        self.prior.len()
    }

    /// The name of the record at position `i`.
    pub fn key_at(&self, i: usize) -> (key: &String)
        requires
            i < self.entries().len(),
        ensures
            key@ == self.entries()[i as int].0,
    {
        self.prior.key_at(i)
    }

    /// What the record at position `i` holds.
    pub fn value_at(&self, i: usize) -> (value: &Option<String>)
        requires
            i < self.entries().len(),
        ensures
            text_view(*value) == self.entries()[i as int].1,
    {
        proof {
            self.prior.lemma_same_length();
        }
        self.prior.value_at(i)
    }

    /// What is recorded for `key`: `None` where nothing is recorded,
    /// `Some(None)` where the variable was not set.
    pub fn get(&self, key: &str) -> (value: Option<&Option<String>>)
        requires
            self.wf(),
        ensures
            match value {
                Some(v) => self@.contains_key(key@) && self@[key@] == text_view(*v),
                None => !self@.contains_key(key@),
            },
    {
        proof {
            self.lemma_inner();
        }
        match self.prior.find(key) {
            Some(i) => {
                proof {
                    lemma_assoc_at(
                        prior_names(self.entries()),
                        prior_values(self.entries()),
                        i as int,
                    );
                }
                Some(self.prior.value_at(i))
            },
            None => None,
        }
    }

    /// Records `before` for `key`.  A `key` that is no valid name, or for
    /// which something is recorded already, changes nothing.
    pub fn record(&mut self, key: String, before: Option<String>) -> (recorded: bool)
        requires
            old(self).wf(),
        ensures
            final(self).wf(),
            recorded == (valid_name(key@) && !old(self)@.contains_key(key@)),
            recorded ==> final(self).entries() == old(self).entries().push(
                (key@, text_view(before)),
            ),
            recorded ==> final(self)@ == old(self)@.insert(key@, text_view(before)),
            !recorded ==> final(self).entries() == old(self).entries(),
    {
        proof {
            self.lemma_inner();
        }
        if !is_valid_name(key.as_str()) || self.prior.find(key.as_str()).is_some() {
            return false;
        }
        let ghost ps = self.entries();
        let ghost k = key@;
        let ghost b = text_view(before);
        let key_len = key.as_str().as_bytes().len();
        assert(encode_utf8(k).len() == key_len);
        match &before {
            Some(value) => {
                let value_len = value.as_str().as_bytes().len();
                assert(encode_utf8(b->0).len() == value_len);
            },
            None => {},
        }
        self.prior.insert(key, before);
        let n = self.prior.len();
        proof {
            self.lemma_inner();
            let ps2 = self.entries();
            assert(ps2 =~= ps.push((k, b)));
            assert(prior_names(ps2) =~= prior_names(ps).push(k));
            assert(prior_values(ps2) =~= prior_values(ps).push(b));
            lemma_assoc_push(prior_names(ps), prior_values(ps), k, b);
            assert forall|j: int| 0 <= j < ps2.len() implies valid_name(#[trigger] ps2[j].0)
                && encode_utf8(ps2[j].0).len() <= u64::MAX && (ps2[j].1 is Some ==> encode_utf8(
                ps2[j].1->0,
            ).len() <= u64::MAX) by {
                if j < ps.len() {
                    assert(ps2[j] == ps[j]);
                }
            }
            assert(ps2.len() == n);
        }
        true
    }

    /// The byte form of the snapshot.
    pub fn to_bytes(&self) -> (bytes: Vec<u8>)
        ensures
            bytes@ == snapshot_bytes(self.entries()),
    {
        let mut bytes: Vec<u8> = Vec::new();
        let n = self.len();
        put_u64(&mut bytes, n as u64);
        let mut i: usize = 0;
        assert(self.entries().subrange(0, 0) =~= Seq::<PriorEntry>::empty());
        assert(bytes@ =~= u64_bytes(n as u64) + records_bytes(self.entries().subrange(0, 0)));
        while i < n
            invariant
                n == self.entries().len(),
                0 <= i <= n,
                bytes@ == u64_bytes(n as u64) + records_bytes(self.entries().subrange(0, i as int)),
            decreases n - i,
        {
            let ghost ps = self.entries();
            let ghost before = bytes@;
            put_field(&mut bytes, self.key_at(i).as_str().as_bytes());
            match self.value_at(i) {
                Some(value) => {
                    bytes.push(1u8);
                    put_field(&mut bytes, value.as_str().as_bytes());
                },
                None => {
                    bytes.push(0u8);
                },
            }
            proof {
                let upto = ps.subrange(0, i + 1);
                assert(upto.drop_last() =~= ps.subrange(0, i as int));
                assert(upto.last() == ps[i as int]);
                assert(bytes@ =~= before + record_bytes(ps[i as int]));
                assert(bytes@ =~= u64_bytes(n as u64) + records_bytes(upto));
            }
            i += 1;
        }
        assert(self.entries().subrange(0, n as int) =~= self.entries());
        bytes
    }

    /// Reads a snapshot from its byte form.
    pub fn from_bytes(data: &[u8]) -> (result: Result<Snapshot, FormatError>)
        ensures
            match result {
                Ok(snapshot) => snapshot.wf() && parsed_snapshot(data@) == Ok::<
                    Seq<PriorEntry>,
                    FormatError,
                >(snapshot.entries()),
                Err(e) => parsed_snapshot(data@) == Err::<Seq<PriorEntry>, FormatError>(e),
            },
    {
        if data.len() < 8 {
            return Err(FormatError::Truncated);
        }
        let count = get_u64(data, 0);
        assert(data@.subrange(0, data@.len() as int) =~= data@);
        let mut snapshot = Snapshot::new();
        let mut at: usize = 8;
        let mut done: u64 = 0;
        while done < count
            invariant
                8 <= at <= data@.len(),
                done <= count,
                snapshot.wf(),
                parsed_snapshot(data@) == parse_records(
                    data@.subrange(at as int, data@.len() as int),
                    (count - done) as nat,
                    snapshot.entries(),
                ),
            decreases count - done,
        {
            let (name, value, next) = match read_record(data, at) {
                Ok(record) => record,
                Err(e) => {
                    return Err(e);
                },
            };
            proof {
                snapshot.lemma_inner();
            }
            if !snapshot.record(name, value) {
                return Err(FormatError::Corrupt);
            }
            at = next;
            done += 1;
        }
        if at != data.len() {
            return Err(FormatError::Corrupt);
        }
        assert(data@.subrange(at as int, data@.len() as int).len() == 0);
        Ok(snapshot)
    }
}

/// Reads the record that starts at `at`: its name, what it holds, and where
/// the next record starts.
pub fn read_record(data: &[u8], at: usize) -> (result: Result<
    (String, Option<String>, usize),
    FormatError,
>)
    requires
        at <= data@.len(),
    ensures
        match result {
            Ok((name, value, next)) => at < next <= data@.len() && first_record(
                data@.subrange(at as int, data@.len() as int),
            ) == Ok::<(PriorEntry, Seq<u8>), FormatError>(
                ((name@, text_view(value)), data@.subrange(next as int, data@.len() as int)),
            ),
            Err(e) => first_record(data@.subrange(at as int, data@.len() as int)) == Err::<
                (PriorEntry, Seq<u8>),
                FormatError,
            >(e),
        },
{
    let (name_from, name_to) = match read_field(data, at) {
        Some(span) => span,
        None => {
            return Err(FormatError::Truncated);
        },
    };
    let ghost rest = data@.subrange(name_to as int, data@.len() as int);
    if name_to >= data.len() {
        return Err(FormatError::Truncated);
    }
    let flag = data[name_to];
    assert(rest[0] == flag);
    assert(rest.subrange(1, rest.len() as int) =~= data@.subrange(name_to + 1, data@.len() as int));
    if flag == 0 {
        match read_text(data, name_from, name_to) {
            Some(name) => Ok((name, None, name_to + 1)),
            None => Err(FormatError::Corrupt),
        }
    } else if flag == 1 {
        let (value_from, value_to) = match read_field(data, name_to + 1) {
            Some(span) => span,
            None => {
                return Err(FormatError::Truncated);
            },
        };
        let name = match read_text(data, name_from, name_to) {
            Some(text) => text,
            None => {
                return Err(FormatError::Corrupt);
            },
        };
        match read_text(data, value_from, value_to) {
            Some(value) => Ok((name, Some(value), value_to)),
            None => Err(FormatError::Corrupt),
        }
    } else {
        Err(FormatError::Corrupt)
    }
}

} // verus!

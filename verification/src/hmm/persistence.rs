//! The frame of a stored model: four bytes of header, then the payload.

use vstd::prelude::*;
use crate::hmm::model::POSTaggingHMM;
use crate::hmm::viterbi::{decoded, is_hmm, Hmm};
use crate::utils::conditional_distribution::{
    is_tables, rows_of, ConditionalStringFrequencyDistribution, Tables,
};
use crate::utils::distribution::{entries_of, is_table, StringFrequencyDistribution, Table};

verus! {

/// `bincode::ErrorKind`: why bincode could not write or read a value.
#[verifier::external_type_specification]
#[verifier::external_body]
pub struct ExErrorKind(bincode::ErrorKind);

/// Why a model could not be stored.
#[derive(Debug, Clone, Copy, PartialEq, Eq, Structural)]
pub enum SaveError {
    /// The tables of the model could not be written as a payload.
    Encoding,
}

/// Why a stored model could not be read.
#[derive(Debug, Clone, Copy, PartialEq, Eq, Structural)]
pub enum LoadError {
    /// The bytes do not start with the header of a stored model.
    UnknownFileStructure,
    /// The payload does not hold the tables of a model.
    CorruptPayload,
}

/// The header of a stored model: the letters `VHMM`.
pub open spec fn header() -> Seq<u8> {
    seq![0x56u8, 0x48u8, 0x4du8, 0x4du8]
}

/// A payload behind the header.
pub open spec fn framed(payload: Seq<u8>) -> Seq<u8> {
    header() + payload
}

/// The payload of framed bytes: none where the bytes are shorter than the
/// header or start otherwise.
pub open spec fn unframed(bytes: Seq<u8>) -> Option<Seq<u8>> {
    if bytes.len() >= 4 && bytes.take(4) == header() {
        Some(bytes.skip(4))
    } else {
        None
    }
}

/// What was framed is read back as it was.
pub proof fn lemma_unframe_frame(payload: Seq<u8>)
    ensures
        unframed(framed(payload)) == Some(payload),
{
    assert(framed(payload).take(4) == header());
    assert(framed(payload).skip(4) == payload);
}

/// The header of a stored model.
pub fn model_file_header() -> (r: Vec<u8>)
    ensures
        r@ == header(),
{
    let mut out: Vec<u8> = Vec::new();
    out.push(0x56u8);
    out.push(0x48u8);
    out.push(0x4du8);
    out.push(0x4du8);
    assert(out@ =~= header());
    out
}

/// Puts the header before a payload.
pub fn frame(payload: &Vec<u8>) -> (r: Vec<u8>)
    ensures
        r@ == framed(payload@),
{
    let mut out = model_file_header();
    let mut i: usize = 0;
    while i < payload.len()
        invariant
            i <= payload.len(),
            out@ == header() + payload@.take(i as int),
        decreases payload.len() - i,
    {
        out.push(payload[i]);
        i += 1;
        assert(out@ =~= header() + payload@.take(i as int));
    }
    assert(payload@.take(payload.len() as int) == payload@);
    out
}

/// Checks the header and gives the payload behind it.
pub fn unframe(bytes: &Vec<u8>) -> (r: Result<Vec<u8>, LoadError>)
    ensures
        match r {
            Ok(payload) => unframed(bytes@) == Some(payload@),
            Err(e) => unframed(bytes@) is None && e == LoadError::UnknownFileStructure,
        },
{
    let head = model_file_header();
    if bytes.len() < 4 {
        return Err(LoadError::UnknownFileStructure);
    }
    let mut i: usize = 0;
    while i < 4
        invariant
            i <= 4 <= bytes.len(),
            head@ == header(),
            forall|j: int| 0 <= j < i ==> bytes@[j] == head@[j],
        decreases 4 - i,
    {
        if bytes[i] != head[i] {
            assert(bytes@.take(4)[i as int] != header()[i as int]);
            return Err(LoadError::UnknownFileStructure);
        }
        i += 1;
    }
    assert(bytes@.take(4) =~= header());
    let mut out: Vec<u8> = Vec::new();
    let mut k: usize = 4;
    while k < bytes.len()
        invariant
            4 <= k <= bytes.len(),
            out@ == bytes@.subrange(4, k as int),
        decreases bytes.len() - k,
    {
        out.push(bytes[k]);
        k += 1;
        assert(out@ =~= bytes@.subrange(4, k as int));
    }
    assert(bytes@.subrange(4, bytes.len() as int) == bytes@.skip(4));
    Ok(out)
}

/// A table as plain values: its entries and its default.
pub type StoredTable = (Vec<(String, i64)>, i64);

/// The rows of a conditional distribution as plain values.
pub type StoredRows = Vec<(String, (Vec<(String, i64)>, i64))>;

/// A model as plain values: its initial tags, its emissions and its transitions.
pub type StoredModel = ((Vec<(String, i64)>, i64), StoredRows, StoredRows);

/// The table that plain values stand for.
pub open spec fn table_view(t: StoredTable) -> Table {
    (entries_of(t.0@), t.1)
}

/// The tables that stored rows stand for.
pub open spec fn rows_view(rows: Seq<(String, StoredTable)>) -> Tables {
    Seq::new(rows.len(), |i: int| (rows[i].0@, table_view(rows[i].1)))
}

/// The tables that a stored model stands for.
pub open spec fn model_view(m: StoredModel) -> Hmm {
    Hmm { initial: table_view(m.0), emission: rows_view(m.1@), transition: rows_view(m.2@) }
}

/// The payload that `bincode::serialize` makes of the tables of a model,
/// if it makes any.
pub uninterp spec fn payload_of(model: Hmm) -> Option<Seq<u8>>;

/// The tables that `bincode::deserialize` reads from a payload, if it reads any.
pub uninterp spec fn tables_in(payload: Seq<u8>) -> Option<Hmm>;

/// `bincode::serialize` on a model in plain values: the bytes, and
/// whether there are any, depend on the values alone. Nothing is claimed
/// of what the bytes are or of when there are none.
#[verifier::external_body]
fn encode(stored: &StoredModel) -> (r: Result<Vec<u8>, Box<bincode::ErrorKind>>)
    ensures
        match r {
            Ok(payload) => payload_of(model_view(*stored)) == Some(payload@),
            Err(_) => payload_of(model_view(*stored)) is None,
        },
{
    bincode::serialize(stored)
}

/// `bincode::deserialize` of a model in plain values: what is read, and
/// whether anything is, depends on the bytes alone.
#[verifier::external_body]
fn decode(payload: &Vec<u8>) -> (r: Result<StoredModel, Box<bincode::ErrorKind>>)
    ensures
        match r {
            Ok(stored) => tables_in(payload@) == Some(model_view(stored)),
            Err(_) => tables_in(payload@) is None,
        },
{
    bincode::deserialize(payload.as_slice())
}

/// A copy of the entries of a table.
fn copy_entries(entries: &Vec<(String, i64)>) -> (r: Vec<(String, i64)>)
    ensures
        entries_of(r@) == entries_of(entries@),
{
    let mut out: Vec<(String, i64)> = Vec::new();
    let mut k: usize = 0;
    while k < entries.len()
        invariant
            k <= entries@.len(),
            out@.len() == k,
            forall|j: int|
                0 <= j < k ==> (#[trigger] out@[j]).0@ == entries@[j].0@ && out@[j].1
                    == entries@[j].1,
        decreases entries@.len() - k,
    {
        out.push((entries[k].0.clone(), entries[k].1));
        k += 1;
    }
    assert(entries_of(out@) =~= entries_of(entries@));
    out
}

/// A distribution as plain values.
pub fn store_table(table: &StringFrequencyDistribution) -> (r: StoredTable)
    requires
        table.wf(),
    ensures
        table_view(r) == table@,
{
    let r = (table.iter(), table.smoothed_default());
    assert(table_view(r).0 =~= table@.0);
    r
}

/// A conditional distribution as plain values.
pub fn store_rows(tables: &ConditionalStringFrequencyDistribution) -> (r: StoredRows)
    requires
        tables.wf(),
    ensures
        rows_view(r@) == tables@,
{
    let mut out: StoredRows = Vec::new();
    let mut i: usize = 0;
    while i < tables.len()
        invariant
            i <= tables@.len(),
            tables.wf(),
            out@.len() == i,
            forall|j: int|
                0 <= j < i ==> (#[trigger] out@[j]).0@ == tables@[j].0 && table_view(out@[j].1)
                    == tables@[j].1,
        decreases tables@.len() - i,
    {
        let row = store_table(tables.row_at(i));
        out.push((tables.key_at(i).clone(), row));
        i += 1;
    }
    assert(rows_view(out@) =~= tables@);
    out
}

/// The distribution that plain values stand for, or `None` where they are
/// no table.
pub fn restore_table(table: &StoredTable) -> (r: Option<StringFrequencyDistribution>)
    ensures
        r is Some <==> is_table(table_view(*table)),
        r is Some ==> r->0.wf() && r->0@ == table_view(*table),
{
    StringFrequencyDistribution::from_entries(copy_entries(&table.0), table.1)
}

/// The conditional distribution that stored rows stand for, or `None`
/// where they are none.
pub fn restore_rows(rows: &StoredRows) -> (r: Option<ConditionalStringFrequencyDistribution>)
    ensures
        r is Some <==> is_tables(rows_view(rows@)),
        r is Some ==> r->0.wf() && r->0@ == rows_view(rows@),
{
    let ghost want = rows_view(rows@);
    let mut made: Vec<(String, StringFrequencyDistribution)> = Vec::new();
    let mut i: usize = 0;
    while i < rows.len()
        invariant
            i <= rows@.len(),
            want == rows_view(rows@),
            made@.len() == i,
            forall|j: int|
                0 <= j < i ==> (#[trigger] made@[j]).0@ == want[j].0 && made@[j].1@ == want[j].1
                    && made@[j].1.wf(),
        decreases rows@.len() - i,
    {
        match restore_table(&rows[i].1) {
            Some(table) => {
                made.push((rows[i].0.clone(), table));
            },
            None => {
                assert(!is_table(want[i as int].1));
                return None;
            },
        }
        i += 1;
    }
    assert(rows_of(made@) =~= want);
    let r = ConditionalStringFrequencyDistribution::from_rows(made);
    proof {
        if r is Some {
            assert forall|j: int| 0 <= j < want.len() implies is_table((#[trigger] want[j]).1) by {
                assert(made@[j].1.wf());
            }
        }
    }
    r
}

/// A model as plain values.
pub fn snapshot(model: &POSTaggingHMM) -> (r: StoredModel)
    requires
        model.wf(),
    ensures
        model_view(r) == model@,
{
    (
        store_table(model.initial_tag_distribution()),
        store_rows(model.emission_distribution()),
        store_rows(model.transition_distribution()),
    )
}

/// Makes the model that plain values stand for.
///
/// Fails where the values make no model: a key stands twice in a table, a
/// log-likelihood is out of range, there is no tag, or a tag has no row of
/// emissions. No model is ever made in part.
pub fn restore(stored: &StoredModel) -> (r: Result<POSTaggingHMM, LoadError>)
    ensures
        r is Ok <==> is_hmm(model_view(*stored)),
        r is Ok ==> r->Ok_0.wf() && r->Ok_0@ == model_view(*stored),
        r is Err ==> r->Err_0 == LoadError::CorruptPayload,
{
    let initial = match restore_table(&stored.0) {
        Some(table) => table,
        None => {
            return Err(LoadError::CorruptPayload);
        },
    };
    let emission = match restore_rows(&stored.1) {
        Some(tables) => tables,
        None => {
            return Err(LoadError::CorruptPayload);
        },
    };
    let transition = match restore_rows(&stored.2) {
        Some(tables) => tables,
        None => {
            return Err(LoadError::CorruptPayload);
        },
    };
    match POSTaggingHMM::new(initial, emission, transition) {
        Some(model) => Ok(model),
        None => Err(LoadError::CorruptPayload),
    }
}

/// What reading a stored model gives: the model of the tables in the
/// payload, or the reason why there is none.
pub open spec fn loaded(bytes: Seq<u8>) -> Result<Hmm, LoadError> {
    match unframed(bytes) {
        None => Err(LoadError::UnknownFileStructure),
        Some(payload) => match tables_in(payload) {
            Some(tables) => if is_hmm(tables) {
                Ok(tables)
            } else {
                Err(LoadError::CorruptPayload)
            },
            None => Err(LoadError::CorruptPayload),
        },
    }
}

/// What storing a model gives: the header and the payload of its tables,
/// or the reason why there is no payload.
pub open spec fn saved(model: Hmm) -> Result<Seq<u8>, SaveError> {
    match payload_of(model) {
        Some(payload) => Ok(framed(payload)),
        None => Err(SaveError::Encoding),
    }
}

impl POSTaggingHMM {
    /// The contents of the file of this model: the header, then the
    /// payload of its tables.
    ///
    /// Fails where the tables cannot be written as a payload, and only
    /// there.
    pub fn save(&self) -> (r: Result<Vec<u8>, SaveError>)
        requires
            self.wf(),
        ensures
            match r {
                Ok(contents) => saved(self@) == Ok::<Seq<u8>, SaveError>(contents@),
                Err(e) => saved(self@) == Err::<Seq<u8>, SaveError>(e),
            },
    {
        let stored = snapshot(self);
        match encode(&stored) {
            Ok(payload) => Ok(frame(&payload)),
            Err(_) => Err(SaveError::Encoding),
        }
    }

    /// Reads a model from the contents of its file: checks the header,
    /// reads the tables from the payload, and makes the model of them.
    ///
    /// Fails where the header is missing or wrong, and where the payload
    /// is cut short, foreign, or holds tables that make no model.
    pub fn from_file(contents: &Vec<u8>) -> (r: Result<POSTaggingHMM, LoadError>)
        ensures
            match r {
                Ok(model) => model.wf() && loaded(contents@) == Ok::<Hmm, LoadError>(model@),
                Err(e) => loaded(contents@) == Err::<Hmm, LoadError>(e),
            },
    {
        let payload = match unframe(contents) {
            Ok(payload) => payload,
            Err(e) => {
                return Err(e);
            },
        };
        match decode(&payload) {
            Ok(stored) => restore(&stored),
            Err(_) => Err(LoadError::CorruptPayload),
        }
    }
}

/// A model that is stored as plain values and restored is the model that
/// it was: it holds the same log-likelihoods, and so it tags every
/// sentence the same.
pub proof fn lemma_restore_snapshot(
    model: POSTaggingHMM,
    stored: StoredModel,
    restored: Result<POSTaggingHMM, LoadError>,
    sentence: Seq<Seq<char>>,
)
    requires
        model.wf(),
        model_view(stored) == model@,
        restored is Ok <==> is_hmm(model_view(stored)),
        restored is Ok ==> restored->Ok_0@ == model_view(stored),
    ensures
        restored is Ok,
        restored->Ok_0@ == model@,
        decoded(restored->Ok_0@, sentence) == decoded(model@, sentence),
{
}

} // verus!

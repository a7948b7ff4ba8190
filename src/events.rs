//! Classification of registry log records and their application to the index.
use vstd::prelude::*;
use vstd::utf8::{valid_utf8, decode_utf8};
use crate::store::{State, StoreModel, StoreError};

verus! {

/// The three kinds of registry event that the index follows.
#[derive(PartialEq, Eq, Structural, Clone, Copy, Debug)]
pub enum EventKind {
    /// An entry is created under a parent.
    Mint,
    /// A mutable annotation is written.
    Note,
    /// An immutable annotation is set.
    Fact,
}

/// The signature hash (first topic) of each event kind.
#[derive(Clone, Debug)]
pub struct EventTable {
    pub mint: String,
    pub note: String,
    pub fact: String,
}

impl EventTable {
    /// The kind whose signature is `topic`, if any.
    pub open spec fn kind_of(&self, topic: Seq<char>) -> Option<EventKind> {
        if topic == self.mint@ {
            Some(EventKind::Mint)
        } else if topic == self.note@ {
            Some(EventKind::Note)
        } else if topic == self.fact@ {
            Some(EventKind::Fact)
        } else {
            None
        }
    }

    /// Finds the kind of event that a record's first topic announces.
    pub fn classify(&self, topic: &str) -> (r: Option<EventKind>)
        ensures
            r == self.kind_of(topic@),
    {
        if crate::text::str_eq(topic, self.mint.as_str()) {
            Some(EventKind::Mint)
        } else if crate::text::str_eq(topic, self.note.as_str()) {
            Some(EventKind::Note)
        } else if crate::text::str_eq(topic, self.fact.as_str()) {
            Some(EventKind::Fact)
        } else {
            None
        }
    }
}

/// The decoded fields of a registry log record.
#[derive(Clone, Debug)]
pub struct LogRecord {
    /// The event signature hash.
    pub topic: String,
    /// Hash of the entry that the event is about (the parent, for a mint).
    pub parent_hash: String,
    /// Hash of the new entry, for a mint; unused otherwise.
    pub child_hash: String,
    /// The label: the new entry's name, or the annotation's label.
    pub label: Vec<u8>,
    /// The annotation's payload; unused for a mint.
    pub data: Vec<u8>,
}

/// Why a log record was not applied.
#[derive(PartialEq, Eq, Structural, Clone, Copy, Debug)]
pub enum LogError {
    /// The label is not valid UTF-8.
    Decode,
    /// The store refused the mutation.
    Store(StoreError),
}

/// What applying a record of kind `kind` reports.
pub open spec fn log_outcome(m: StoreModel, kind: Option<EventKind>, rec: LogRecord) -> Result<(), LogError> {
    match kind {
        None => Ok(()),
        Some(k) => if !valid_utf8(rec.label@) {
            Err(LogError::Decode)
        } else {
            let label = decode_utf8(rec.label@);
            let r = match k {
                EventKind::Mint => m.create_outcome(rec.parent_hash@, rec.child_hash@, label),
                EventKind::Note => m.note_outcome(rec.parent_hash@),
                EventKind::Fact => m.fact_outcome(rec.parent_hash@, label),
            };
            match r {
                Ok(()) => Ok(()),
                Err(e) => Err(LogError::Store(e)),
            }
        },
    }
}

/// The store after applying a record of kind `kind`.
pub open spec fn log_state(m: StoreModel, kind: Option<EventKind>, rec: LogRecord) -> StoreModel {
    match kind {
        None => m,
        Some(k) => if !valid_utf8(rec.label@) {
            m
        } else {
            let label = decode_utf8(rec.label@);
            match k {
                EventKind::Mint => m.create(rec.parent_hash@, rec.child_hash@, label),
                EventKind::Note => m.note(rec.parent_hash@, label, rec.data@),
                EventKind::Fact => m.fact(rec.parent_hash@, label, rec.data@),
            }
        },
    }
}

/// Relies on String::from_utf8: it succeeds exactly on valid UTF-8 and then
/// holds the characters that the bytes encode.
#[verifier::external_body]
fn utf8_text(bytes: Vec<u8>) -> (r: Option<String>)
    ensures
        r is Some <==> valid_utf8(bytes@),
        r is Some ==> r->0@ == decode_utf8(bytes@),
{
    String::from_utf8(bytes).ok()
}

fn store_result(r: Result<(), StoreError>) -> (out: Result<(), LogError>)
    ensures
        out == match r {
            Ok(()) => Ok(()),
            Err(e) => Err(LogError::Store(e)),
        },
{
    match r {
        Ok(()) => Ok(()),
        Err(e) => Err(LogError::Store(e)),
    }
}

impl State {
    /// Applies one log record: records of other kinds are ignored, a label
    /// that is not text is refused, and the rest goes to the store.
    pub fn handle_log(&mut self, table: &EventTable, rec: LogRecord) -> (r: Result<(), LogError>)
        requires
            old(self).inv(),
        ensures
            final(self).inv(),
            final(self)@.wf(),
            r == log_outcome(old(self)@, table.kind_of(rec.topic@), rec),
            final(self)@ == log_state(old(self)@, table.kind_of(rec.topic@), rec),
    {
        let ghost rv = rec;
        let kind = match table.classify(rec.topic.as_str()) {
            Some(k) => k,
            None => {
                proof {
                    self.lemma_wf();
                }
                return Ok(());
            },
        };
        let LogRecord { topic: _, parent_hash, child_hash, label, data } = rec;
        let label = match utf8_text(label) {
            Some(t) => t,
            None => {
                proof {
                    self.lemma_wf();
                }
                return Err(LogError::Decode);
            },
        };
        match kind {
            EventKind::Mint => store_result(self.add_mint(parent_hash.as_str(), child_hash, label)),
            EventKind::Note => store_result(self.add_note(parent_hash.as_str(), label, data)),
            EventKind::Fact => store_result(self.add_fact(parent_hash.as_str(), label, data)),
        }
    }
}

} // verus!

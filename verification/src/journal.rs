//! The redo log of a transaction.

use vstd::prelude::*;
use crate::block::BLOCK_SIZE;
use crate::error::{Error, ErrorKind};

verus! {

/// The number of a transaction.
pub type TransactionId = u64;

/// One entry of the log.
#[derive(Debug, Clone, PartialEq, Eq)]
pub enum JournalEntry {
    Begin { txid: TransactionId },
    Write { txid: TransactionId, block: u64, data: Box<[u8; BLOCK_SIZE]> },
    Commit { txid: TransactionId },
}

/// A log entry as a value.
pub enum EntryView {
    Begin { txid: u64 },
    Write { txid: u64, block: u64, data: Seq<u8> },
    Commit { txid: u64 },
}

impl View for JournalEntry {
    type V = EntryView;

    open spec fn view(&self) -> EntryView {
        match self {
            JournalEntry::Begin { txid } => EntryView::Begin { txid: *txid },
            JournalEntry::Write { txid, block, data } => EntryView::Write {
                txid: *txid,
                block: *block,
                data: data@,
            },
            JournalEntry::Commit { txid } => EntryView::Commit { txid: *txid },
        }
    }
}

/// The values of a list of entries.
pub open spec fn entry_views(entries: Seq<JournalEntry>) -> Seq<EntryView> {
    Seq::new(entries.len(), |i: int| entries[i]@)
}

/// Copies an entry.
pub fn copy_entry(entry: &JournalEntry) -> (r: JournalEntry)
    ensures
        r@ == entry@,
{
    match entry {
        JournalEntry::Begin { txid } => JournalEntry::Begin { txid: *txid },
        JournalEntry::Write { txid, block, data } => JournalEntry::Write {
            txid: *txid,
            block: *block,
            data: Box::new(**data),
        },
        JournalEntry::Commit { txid } => JournalEntry::Commit { txid: *txid },
    }
}

/// A log in the making.
#[derive(Debug, Clone)]
pub struct JournalLog {
    next: TransactionId,
    active: Option<TransactionId>,
    list: Vec<JournalEntry>,
}

impl JournalLog {
    /// The entries so far.
    pub closed spec fn log(&self) -> Seq<EntryView> {
        entry_views(self.list@)
    }

    /// The number that the next transaction gets.
    pub closed spec fn next_txid(&self) -> u64 {
        self.next
    }

    /// The transaction that is open.
    pub closed spec fn open_txid(&self) -> Option<u64> {
        self.active
    }

    /// An empty log; its first transaction has number one.
    pub fn new() -> (log: Self)
        ensures
            log.log() == Seq::<EntryView>::empty(),
            log.next_txid() == 1,
            log.open_txid() is None,
    {
        let log = JournalLog { next: 1, active: None, list: Vec::new() };
        assert(log.log() =~= Seq::<EntryView>::empty());
        log
    }

    /// Opens a transaction. Refused while one is open, or when the numbers are used up.
    pub fn begin(&mut self) -> (r: Result<TransactionId, Error>)
        ensures
            match r {
                Ok(txid) => {
                    &&& old(self).open_txid() is None
                    &&& txid == old(self).next_txid()
                    &&& txid < u64::MAX
                    &&& final(self).next_txid() == txid + 1
                    &&& final(self).open_txid() == Some(txid)
                    &&& final(self).log() == old(self).log().push(EntryView::Begin { txid })
                },
                Err(e) => {
                    &&& old(self).open_txid() is Some || old(self).next_txid() == u64::MAX
                    &&& e.kind == ErrorKind::InvalidInput
                    &&& *final(self) == *old(self)
                },
            },
    {
        if self.active.is_some() || self.next == u64::MAX {
            return Err(Error::new(ErrorKind::InvalidInput, "journal transaction cannot begin"));
        }
        let txid: u64 = self.next;
        self.next = txid + 1;
        self.active = Some(txid);
        self.list.push(JournalEntry::Begin { txid });
        assert(self.log() =~= old(self).log().push(EntryView::Begin { txid }));
        Ok(txid)
    }

    /// Logs the new contents of one block. Refused unless this transaction is open.
    pub fn write(&mut self, txid: TransactionId, block: u64, data: [u8; BLOCK_SIZE]) -> (r: Result<(), Error>)
        ensures
            match r {
                Ok(_) => {
                    &&& old(self).open_txid() == Some(txid)
                    &&& final(self).next_txid() == old(self).next_txid()
                    &&& final(self).open_txid() == Some(txid)
                    &&& final(self).log() == old(self).log().push(
                        EntryView::Write { txid, block, data: data@ },
                    )
                },
                Err(e) => {
                    &&& old(self).open_txid() != Some(txid)
                    &&& e.kind == ErrorKind::InvalidInput
                    &&& *final(self) == *old(self)
                },
            },
    {
        if !self.is_open(txid) {
            return Err(Error::new(ErrorKind::InvalidInput, "journal write outside transaction"));
        }
        self.list.push(JournalEntry::Write { txid, block, data: Box::new(data) });
        assert(self.log() =~= old(self).log().push(
            EntryView::Write { txid, block, data: data@ },
        ));
        Ok(())
    }

    /// Closes a transaction. Refused unless it is open.
    pub fn commit(&mut self, txid: TransactionId) -> (r: Result<(), Error>)
        ensures
            match r {
                Ok(_) => {
                    &&& old(self).open_txid() == Some(txid)
                    &&& final(self).next_txid() == old(self).next_txid()
                    &&& final(self).open_txid() is None
                    &&& final(self).log() == old(self).log().push(EntryView::Commit { txid })
                },
                Err(e) => {
                    &&& old(self).open_txid() != Some(txid)
                    &&& e.kind == ErrorKind::InvalidInput
                    &&& *final(self) == *old(self)
                },
            },
    {
        if !self.is_open(txid) {
            return Err(Error::new(ErrorKind::InvalidInput, "journal commit outside transaction"));
        }
        self.active = None;
        self.list.push(JournalEntry::Commit { txid });
        assert(self.log() =~= old(self).log().push(EntryView::Commit { txid }));
        Ok(())
    }

    fn is_open(&self, txid: TransactionId) -> (b: bool)
        ensures
            b == (self.open_txid() == Some(txid)),
    {
        match self.active {
            Some(active) => active == txid,
            None => false,
        }
    }

    /// The entries so far.
    pub fn entries(&self) -> (entries: &[JournalEntry])
        ensures
            entry_views(entries@) == self.log(),
    {
        self.list.as_slice()
    }
}

} // verus!

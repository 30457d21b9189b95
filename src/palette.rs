//! A palette: a cell store with undo and redo histories.
use crate::address::Address;
use crate::color::{Color, ColorElement};
use crate::data::{Data, resolve_spec};
use crate::error::Error;
use crate::operation::{Operation, RepeatOperation, SequenceOperation, all_ok, fails_with};
use crate::undo::{HistoryEntry, chain_wf, lemma_chain_round_trip, revert_chain, undoes};
use vstd::prelude::*;

verus! {

/// A cell store with the history of the operations applied to it.
pub struct Palette {
    data: Data,
    undo_stack: Vec<HistoryEntry>,
    redo_stack: Vec<HistoryEntry>,
}

/// Whether every entry's undo chain saves each address once per record.
pub open spec fn stack_wf(s: Seq<HistoryEntry>) -> bool {
    forall|i: int| 0 <= i < s.len() ==> chain_wf((#[trigger] s[i]).chain())
}

/// Whether the entries of `s`, replayed from the last, each succeed in
/// turn, starting from store `m`.
pub open spec fn stack_replays(m: Map<u32, ColorElement>, s: Seq<HistoryEntry>) -> bool
    decreases s.len(),
{
    if s.len() == 0 {
        true
    } else {
        match revert_chain(m, s.last().chain()) {
            Some((m1, _)) => stack_replays(m1, s.drop_last()),
            None => false,
        }
    }
}

impl Palette {
    /// Whether both histories replay in turn from the current store, so
    /// that undoing and redoing always succeed.
    pub open spec fn replayable(&self) -> bool {
        stack_replays(self.store(), self.undo_entries()) && stack_replays(self.store(), self.redo_entries())
    }

    /// The cells of the palette.
    pub closed spec fn store(&self) -> Map<u32, ColorElement> {
        self.data@
    }

    /// The entries that `undo` replays, the most recent last.
    pub closed spec fn undo_entries(&self) -> Seq<HistoryEntry> {
        self.undo_stack@
    }

    /// The entries that `redo` replays, the most recent last.
    pub closed spec fn redo_entries(&self) -> Seq<HistoryEntry> {
        self.redo_stack@
    }

    pub open spec fn wf(&self) -> bool {
        stack_wf(self.undo_entries()) && stack_wf(self.redo_entries())
    }

    /// Creates an empty palette with no history.
    pub fn new() -> (p: Palette)
        ensures
            p.wf(),
            p.replayable(),
            p.store() == Map::<u32, ColorElement>::empty(),
            p.undo_entries().len() == 0,
            p.redo_entries().len() == 0,
    {
        Palette { data: Data::new(), undo_stack: Vec::new(), redo_stack: Vec::new() }
    }

    /// Returns the number of occupied cells.
    pub fn len(&self) -> (r: usize)
        ensures
            r == self.store().len(),
    {
        self.data.len()
    }

    /// Resolves the color at the address.
    pub fn resolve(&self, a: Address) -> (r: Result<Color, Error>)
        ensures
            r == resolve_spec(self.store(), a, Seq::empty()),
    {
        self.data.resolve(a)
    }

    /// Returns the color at the address, or `None` where it does not resolve.
    pub fn get_color(&self, a: Address) -> (r: Option<Color>)
        ensures
            r == match resolve_spec(self.store(), a, Seq::empty()) {
                Ok(c) => Some(c),
                Err(_) => None,
            },
    {
        match self.data.resolve(a) {
            Ok(c) => Some(c),
            Err(_) => None,
        }
    }

    fn record(&mut self, h: HistoryEntry, Ghost(pre): Ghost<Map<u32, ColorElement>>)
        requires
            old(self).wf(),
            chain_wf(h.chain()),
            undoes(h.chain(), old(self).store(), pre),
        ensures
            stack_replays(pre, old(self).undo_entries()) ==> final(self).replayable(),
            final(self).wf(),
            final(self).store() == old(self).store(),
            final(self).undo_entries() == old(self).undo_entries().push(h),
            final(self).redo_entries().len() == 0,
    {
        let ghost before = self.undo_stack@;
        self.undo_stack.push(h);
        self.redo_stack = Vec::new();
        assert(self.undo_stack@.drop_last() =~= before);
        assert(stack_wf(self.undo_stack@)) by {
            assert forall|i: int| 0 <= i < self.undo_stack@.len() implies chain_wf(
                (#[trigger] self.undo_stack@[i]).chain(),
            ) by {
                if i < old(self).undo_stack@.len() {
                    assert(self.undo_stack@[i] == old(self).undo_stack@[i]);
                }
            }
        }
    }

    /// Applies an operation and pushes its history entry; clears the redo
    /// history. On failure the histories are left as they were.
    pub fn apply(&mut self, op: Operation) -> (r: Result<(), Error>)
        requires
            old(self).wf(),
        ensures
            final(self).wf(),
            old(self).replayable() ==> final(self).replayable(),
            r is Ok ==> op.ok_effect(old(self).store(), final(self).store()),
            r matches Err(e) ==> op.err_effect(old(self).store(), final(self).store(), e),
            r is Ok ==> final(self).undo_entries().len() == old(self).undo_entries().len() + 1
                && undoes(final(self).undo_entries().last().chain(), final(self).store(), old(self).store())
                && final(self).redo_entries().len() == 0,
            r is Err ==> final(self).undo_entries() == old(self).undo_entries()
                && final(self).redo_entries() == old(self).redo_entries(),
    {
        let ghost pre = self.data@;
        let h = match op.apply(&mut self.data) {
            Ok(h) => h,
            Err(e) => {
                return Err(e);
            },
        };
        self.record(h, Ghost(pre));
        Ok(())
    }

    /// Applies a sequence of operations as one history entry.
    pub fn apply_sequence(&mut self, op: SequenceOperation) -> (r: Result<(), Error>)
        requires
            old(self).wf(),
        ensures
            final(self).wf(),
            old(self).replayable() && r is Ok ==> final(self).replayable(),
            r is Ok ==> all_ok(op.operations@, old(self).store(), final(self).store()),
            r matches Err(e) ==> fails_with(op.operations@, old(self).store(), final(self).store(), e),
            r is Ok ==> final(self).undo_entries().len() == old(self).undo_entries().len() + 1
                && undoes(final(self).undo_entries().last().chain(), final(self).store(), old(self).store())
                && final(self).redo_entries().len() == 0,
            r is Err ==> final(self).undo_entries() == old(self).undo_entries()
                && final(self).redo_entries() == old(self).redo_entries(),
    {
        let ghost pre = self.data@;
        let h = match SequenceOperation::apply(op, &mut self.data) {
            Ok(h) => h,
            Err(e) => {
                return Err(e);
            },
        };
        self.record(h, Ghost(pre));
        Ok(())
    }

    /// Applies a repeated operation as one history entry.
    pub fn apply_repeat(&mut self, op: RepeatOperation) -> (r: Result<(), Error>)
        requires
            old(self).wf(),
        ensures
            final(self).wf(),
            old(self).replayable() && r is Ok ==> final(self).replayable(),
            r is Ok ==> all_ok(op.repeated(), old(self).store(), final(self).store()),
            r matches Err(e) ==> fails_with(op.repeated(), old(self).store(), final(self).store(), e),
            r is Ok ==> final(self).undo_entries().len() == old(self).undo_entries().len() + 1
                && undoes(final(self).undo_entries().last().chain(), final(self).store(), old(self).store())
                && final(self).redo_entries().len() == 0,
            r is Err ==> final(self).undo_entries() == old(self).undo_entries()
                && final(self).redo_entries() == old(self).redo_entries(),
    {
        let ghost pre = self.data@;
        let h = match RepeatOperation::apply(op, &mut self.data) {
            Ok(h) => h,
            Err(e) => {
                return Err(e);
            },
        };
        self.record(h, Ghost(pre));
        Ok(())
    }

    /// Undoes the most recent entry and pushes its redo; returns whether
    /// there was an entry to undo.
    pub fn undo(&mut self) -> (r: Result<bool, Error>)
        requires
            old(self).wf(),
        ensures
            final(self).wf(),
            old(self).replayable() ==> final(self).replayable() && r is Ok,
            old(self).undo_entries().len() == 0 ==> r == Ok::<bool, Error>(false) && final(self).store()
                == old(self).store(),
            old(self).undo_entries().len() > 0 ==> match revert_chain(
                old(self).store(),
                old(self).undo_entries().last().chain(),
            ) {
                Some((m, rc)) => r == Ok::<bool, Error>(true) && final(self).store() == m
                    && final(self).undo_entries() == old(self).undo_entries().drop_last()
                    && final(self).redo_entries().len() == old(self).redo_entries().len() + 1
                    && final(self).redo_entries().last().chain() == rc,
                None => r is Err,
            },
    {
        match self.undo_stack.pop() {
            None => Ok(false),
            Some(h) => {
                proof {
                    assert(chain_wf(old(self).undo_stack@[old(self).undo_stack@.len() - 1].chain()));
                }
                let ghost c = h.chain();
                let ghost m0 = self.data@;
                proof {
                    assert(c == old(self).undo_stack@.last().chain());
                    assert(self.undo_stack@ =~= old(self).undo_stack@.drop_last());
                    if old(self).replayable() {
                        assert(stack_replays(m0, old(self).undo_stack@));
                        assert(revert_chain(m0, c) is Some);
                    }
                }
                let redo = h.apply(&mut self.data);
                proof {
                    assert forall|i: int| 0 <= i < self.undo_stack@.len() implies chain_wf(
                        (#[trigger] self.undo_stack@[i]).chain(),
                    ) by {
                        assert(self.undo_stack@[i] == old(self).undo_stack@[i]);
                    }
                }
                let redo = redo?;
                proof {
                    lemma_chain_round_trip(m0, c);
                }
                let ghost before = self.redo_stack@;
                let ghost rc = redo.chain();
                self.redo_stack.push(redo);
                proof {
                    if old(self).replayable() {
                        assert(self.redo_stack@.last() == redo);
                        assert(self.redo_stack@.drop_last() =~= before);
                        assert(revert_chain(self.data@, rc) == Some((m0, c)));
                        assert(stack_replays(m0, before));
                        assert(stack_replays(self.data@, self.redo_stack@));
                        assert(stack_replays(self.data@, self.undo_stack@));
                    }
                    assert forall|i: int| 0 <= i < self.redo_stack@.len() implies chain_wf(
                        (#[trigger] self.redo_stack@[i]).chain(),
                    ) by {
                        if i < before.len() {
                            assert(self.redo_stack@[i] == before[i]);
                        }
                    }
                }
                Ok(true)
            },
        }
    }

    /// Redoes the most recently undone entry and pushes it back on the undo
    /// history; returns whether there was an entry to redo.
    pub fn redo(&mut self) -> (r: Result<bool, Error>)
        requires
            old(self).wf(),
        ensures
            final(self).wf(),
            old(self).replayable() ==> final(self).replayable() && r is Ok,
            old(self).redo_entries().len() == 0 ==> r == Ok::<bool, Error>(false) && final(self).store()
                == old(self).store(),
            old(self).redo_entries().len() > 0 ==> match revert_chain(
                old(self).store(),
                old(self).redo_entries().last().chain(),
            ) {
                Some((m, rc)) => r == Ok::<bool, Error>(true) && final(self).store() == m
                    && final(self).redo_entries() == old(self).redo_entries().drop_last()
                    && final(self).undo_entries().len() == old(self).undo_entries().len() + 1
                    && final(self).undo_entries().last().chain() == rc,
                None => r is Err,
            },
    {
        match self.redo_stack.pop() {
            None => Ok(false),
            Some(h) => {
                proof {
                    assert(chain_wf(old(self).redo_stack@[old(self).redo_stack@.len() - 1].chain()));
                }
                let ghost c = h.chain();
                let ghost m0 = self.data@;
                proof {
                    assert(c == old(self).redo_stack@.last().chain());
                    assert(self.redo_stack@ =~= old(self).redo_stack@.drop_last());
                    if old(self).replayable() {
                        assert(stack_replays(m0, old(self).redo_stack@));
                        assert(revert_chain(m0, c) is Some);
                    }
                }
                let undo = h.apply(&mut self.data);
                proof {
                    assert forall|i: int| 0 <= i < self.redo_stack@.len() implies chain_wf(
                        (#[trigger] self.redo_stack@[i]).chain(),
                    ) by {
                        assert(self.redo_stack@[i] == old(self).redo_stack@[i]);
                    }
                }
                let undo = undo?;
                proof {
                    lemma_chain_round_trip(m0, c);
                }
                let ghost before = self.undo_stack@;
                let ghost rc = undo.chain();
                self.undo_stack.push(undo);
                proof {
                    if old(self).replayable() {
                        assert(self.undo_stack@.last() == undo);
                        assert(self.undo_stack@.drop_last() =~= before);
                        assert(revert_chain(self.data@, rc) == Some((m0, c)));
                        assert(stack_replays(m0, before));
                        assert(stack_replays(self.data@, self.undo_stack@));
                        assert(stack_replays(self.data@, self.redo_stack@));
                    }
                    assert forall|i: int| 0 <= i < self.undo_stack@.len() implies chain_wf(
                        (#[trigger] self.undo_stack@[i]).chain(),
                    ) by {
                        if i < before.len() {
                            assert(self.undo_stack@[i] == before[i]);
                        }
                    }
                }
                Ok(true)
            },
        }
    }
}

} // verus!

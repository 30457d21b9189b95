//! Undo records: the prior contents of every address an operation touched,
//! and the replay that restores them.
use crate::address::Address;
use crate::color::ColorElement;
use crate::data::{Data, addr_of, key_of, lemma_addr_of, lemma_key_of, lemma_lookup_ext, lookup};
use crate::error::Error;
use crate::operation::PaletteOperation;
use vstd::prelude::*;

verus! {

/// One saved entry: an address and what it held, `None` where it held no
/// cell.
pub type Saved = (Address, Option<ColorElement>);

/// The operation that a history entry or an undo record belongs to.
#[derive(Debug, Clone, Copy, PartialEq, Eq, Structural)]
pub enum OperationInfo {
    /// A terminal color was inserted.
    InsertColor,
    /// A cell was removed.
    RemoveElement,
    /// A resolved color was copied.
    CopyColor,
    /// A watcher cell was inserted.
    InsertWatcher,
    /// A ramp was inserted.
    InsertRamp,
    /// A sequence of operations was applied.
    Sequence,
    /// An operation was repeated.
    Repeat,
    /// An undo record was replayed.
    Undo,
}

/// Whether no address is saved twice.
pub open spec fn distinct(s: Seq<Saved>) -> bool {
    forall|i: int, j: int| 0 <= i < j < s.len() ==> (#[trigger] s[i]).0 != (#[trigger] s[j]).0
}

/// Whether the address is saved.
pub open spec fn saves(s: Seq<Saved>, a: Address) -> bool {
    exists|i: int| 0 <= i < s.len() && (#[trigger] s[i]).0 == a
}

/// Restores `v` at the address of store `m`: the new store and what the
/// address held, or `None` where `v` asks to delete a cell that is not there.
pub open spec fn revert_step(m: Map<u32, ColorElement>, a: Address, v: Option<ColorElement>) -> Option<
    (Map<u32, ColorElement>, Option<ColorElement>),
> {
    let k = key_of(a);
    match v {
        Some(e) => Some((m.insert(k, e), lookup(m, k))),
        None => if m.contains_key(k) {
            Some((m.remove(k), lookup(m, k)))
        } else {
            None
        },
    }
}

/// Replays saved entries, the last first, against store `m`: the resulting
/// store and the entries that would redo the change, in the order they were
/// replayed; `None` where an entry asks to delete a missing cell.
pub open spec fn revert(m: Map<u32, ColorElement>, s: Seq<Saved>) -> Option<
    (Map<u32, ColorElement>, Seq<Saved>),
>
    decreases s.len(),
{
    if s.len() == 0 {
        Some((m, Seq::empty()))
    } else {
        let (a, v) = s.last();
        match revert_step(m, a, v) {
            None => None,
            Some((m1, prev)) => match revert(m1, s.drop_last()) {
                None => None,
                Some((m2, r)) => Some((m2, seq![(a, prev)] + r)),
            },
        }
    }
}

/// Replays a chain of undo records, the last record first: the resulting
/// store and the chain of redo records, in the order they were made.
pub open spec fn revert_chain(m: Map<u32, ColorElement>, c: Seq<Seq<Saved>>) -> Option<
    (Map<u32, ColorElement>, Seq<Seq<Saved>>),
>
    decreases c.len(),
{
    if c.len() == 0 {
        Some((m, Seq::empty()))
    } else {
        match revert(m, c.last()) {
            None => None,
            Some((m1, r)) => match revert_chain(m1, c.drop_last()) {
                None => None,
                Some((m2, rs)) => Some((m2, seq![r] + rs)),
            },
        }
    }
}

/// Whether every record of the chain saves each address once.
pub open spec fn chain_wf(c: Seq<Seq<Saved>>) -> bool {
    forall|i: int| 0 <= i < c.len() ==> distinct(#[trigger] c[i])
}

/// Whether `s` records how store `cur` differs from store `pre`: each saved
/// entry holds what `pre` had at its address, an address saved as empty
/// holds a cell in `cur`, and every address not saved is unchanged.
pub open spec fn tracks(s: Seq<Saved>, pre: Map<u32, ColorElement>, cur: Map<u32, ColorElement>) -> bool {
    &&& distinct(s)
    &&& forall|i: int|
        0 <= i < s.len() ==> lookup(pre, key_of((#[trigger] s[i]).0)) == s[i].1 && (s[i].1 is None
            ==> cur.contains_key(key_of(s[i].0)))
    &&& forall|a: Address| !saves(s, a) ==> lookup(cur, key_of(a)) == lookup(pre, key_of(a))
}

proof fn lemma_revert_pointwise(m: Map<u32, ColorElement>, s: Seq<Saved>)
    requires
        distinct(s),
    ensures
        revert(m, s) is Some <==> forall|i: int|
            0 <= i < s.len() && (#[trigger] s[i]).1 is None ==> m.contains_key(key_of(s[i].0)),
        revert(m, s) matches Some((m2, r)) ==> {
            &&& r.len() == s.len()
            &&& forall|i: int|
                0 <= i < s.len() ==> r[s.len() - 1 - i] == (s[i].0, lookup(m, key_of((#[trigger] s[i]).0)))
            &&& forall|i: int| 0 <= i < s.len() ==> lookup(m2, key_of((#[trigger] s[i]).0)) == s[i].1
            &&& forall|a: Address| !saves(s, a) ==> lookup(m2, key_of(a)) == lookup(m, key_of(a))
        },
    decreases s.len(),
{
    if s.len() > 0 {
        let n = s.len() - 1;
        let (a, v) = s.last();
        let rest = s.drop_last();
        assert(distinct(rest));
        assert forall|i: int| 0 <= i < rest.len() implies key_of(#[trigger] rest[i].0) != key_of(a) by {
            lemma_key_of(rest[i].0, a);
            assert(rest[i] == s[i]);
        }
        match revert_step(m, a, v) {
            None => {},
            Some((m1, prev)) => {
                lemma_revert_pointwise(m1, rest);
                assert forall|i: int| 0 <= i < rest.len() implies lookup(m1, key_of(#[trigger] rest[i].0))
                    == lookup(m, key_of(rest[i].0)) by {}
                if revert(m, s) is Some {
                    assert forall|i: int|
                        0 <= i < s.len() && (#[trigger] s[i]).1 is None implies m.contains_key(key_of(s[i].0)) by {
                        if i < n {
                            assert(rest[i] == s[i]);
                        }
                    }
                } else {
                    assert(revert(m1, rest) is None);
                    let i = choose|i: int|
                        0 <= i < rest.len() && (#[trigger] rest[i]).1 is None && !m1.contains_key(key_of(rest[i].0));
                    assert(s[i] == rest[i]);
                }
                if let Some((m2, r)) = revert(m, s) {
                    let r1 = revert(m1, rest).unwrap().1;
                    assert(r == seq![(a, prev)] + r1);
                    assert forall|i: int| 0 <= i < s.len() implies r[s.len() - 1 - i] == (s[i].0, lookup(m, key_of((#[trigger] s[i]).0))) by {
                        if i < n {
                            assert(rest[i] == s[i]);
                        }
                    }
                    assert forall|i: int| 0 <= i < s.len() implies lookup(m2, key_of((#[trigger] s[i]).0)) == s[i].1 by {
                        if i < n {
                            assert(rest[i] == s[i]);
                        } else {
                            if saves(rest, a) {
                                let j = choose|j: int| 0 <= j < rest.len() && (#[trigger] rest[j]).0 == a;
                                assert(rest[j] == s[j]);
                            }
                        }
                    }
                    assert forall|b: Address| !saves(s, b) implies lookup(m2, key_of(b)) == lookup(m, key_of(b)) by {
                        if saves(rest, b) {
                            let j = choose|j: int| 0 <= j < rest.len() && (#[trigger] rest[j]).0 == b;
                            assert(s[j].0 == b);
                        }
                        assert(s[n].0 == a);
                        lemma_key_of(a, b);
                    }
                }
            },
        }
        if revert_step(m, a, v) is None {
            assert(s[n].1 is None && !m.contains_key(key_of(s[n].0)));
        }
    }
}

/// Replaying a record that tracks how `cur` differs from `pre` succeeds on
/// `cur` and gives back `pre`.
pub proof fn lemma_tracks_reverts(s: Seq<Saved>, pre: Map<u32, ColorElement>, cur: Map<u32, ColorElement>)
    requires
        tracks(s, pre, cur),
    ensures
        revert(cur, s) matches Some((m, _)) && m == pre,
{
    lemma_revert_pointwise(cur, s);
    let m = revert(cur, s).unwrap().0;
    assert forall|k: u32| #[trigger] lookup(m, k) == lookup(pre, k) by {
        let a = addr_of(k);
        lemma_addr_of(k);
        if saves(s, a) {
            let i = choose|i: int| 0 <= i < s.len() && (#[trigger] s[i]).0 == a;
        }
    }
    lemma_lookup_ext(m, pre);
}

/// Replaying a record and then the redo record that the replay produced
/// gives back the first store and the first record.
pub proof fn lemma_revert_round_trip(m: Map<u32, ColorElement>, s: Seq<Saved>)
    requires
        distinct(s),
        revert(m, s) is Some,
    ensures
        distinct(revert(m, s).unwrap().1),
        revert(revert(m, s).unwrap().0, revert(m, s).unwrap().1) == Some((m, s)),
{
    lemma_revert_pointwise(m, s);
    let (m2, r) = revert(m, s).unwrap();
    let n = s.len();
    assert forall|j: int| 0 <= j < n implies #[trigger] r[j] == (s[n - 1 - j].0, lookup(m, key_of(s[n - 1 - j].0))) by {
        let i = n - 1 - j;
        assert(r[n - 1 - i] == (s[i].0, lookup(m, key_of(s[i].0))));
    }
    assert forall|i: int, j: int| 0 <= i < j < r.len() implies (#[trigger] r[i]).0 != (#[trigger] r[j]).0 by {
        assert(s[n - 1 - j].0 != s[n - 1 - i].0);
    }
    lemma_revert_pointwise(m2, r);
    assert forall|j: int| 0 <= j < r.len() && (#[trigger] r[j]).1 is None implies m2.contains_key(key_of(r[j].0)) by {
        let i = n - 1 - j;
        assert(s[i].1 is Some);
    }
    let (m3, r2) = revert(m2, r).unwrap();
    assert forall|k: u32| #[trigger] lookup(m3, k) == lookup(m, k) by {
        let a = addr_of(k);
        lemma_addr_of(k);
        if saves(r, a) {
            let j = choose|j: int| 0 <= j < r.len() && (#[trigger] r[j]).0 == a;
        } else if saves(s, a) {
            let i = choose|i: int| 0 <= i < s.len() && (#[trigger] s[i]).0 == a;
            assert(r[n - 1 - i].0 == a);
        }
    }
    lemma_lookup_ext(m3, m);
    assert forall|i: int| 0 <= i < n implies #[trigger] r2[i] == s[i] by {
        let j = n - 1 - i;
        assert(r2[n - 1 - j] == (r[j].0, lookup(m2, key_of(r[j].0))));
    }
    assert(r2 =~= s);
}

proof fn lemma_chain_prepend(m: Map<u32, ColorElement>, y: Seq<Saved>, t: Seq<Seq<Saved>>)
    ensures
        revert_chain(m, seq![y] + t) == match revert_chain(m, t) {
            None => None,
            Some((m1, rt)) => match revert(m1, y) {
                None => None,
                Some((m2, ry)) => Some((m2, rt + seq![ry])),
            },
        },
    decreases t.len(),
{
    let c = seq![y] + t;
    if t.len() == 0 {
        assert(c.drop_last() =~= Seq::<Seq<Saved>>::empty());
        assert(c.last() == y);
        assert(revert_chain(m, t) == Some((m, Seq::<Seq<Saved>>::empty())));
        if let Some((m1, r)) = revert(m, y) {
            assert(revert_chain(m1, c.drop_last()) == Some((m1, Seq::<Seq<Saved>>::empty())));
            assert(seq![r] + Seq::<Seq<Saved>>::empty() =~= Seq::<Seq<Saved>>::empty() + seq![r]);
        }
    } else {
        assert(c.last() == t.last());
        assert(c.drop_last() =~= seq![y] + t.drop_last());
        match revert(m, t.last()) {
            None => {},
            Some((m1, r)) => {
                lemma_chain_prepend(m1, y, t.drop_last());
                match revert_chain(m1, t.drop_last()) {
                    None => {},
                    Some((m2, rs)) => {
                        match revert(m2, y) {
                            None => {},
                            Some((m3, ry)) => {
                                assert(seq![r] + (rs + seq![ry]) =~= (seq![r] + rs) + seq![ry]);
                            },
                        }
                    },
                }
            },
        }
    }
}

/// Replaying a chain of undo records and then the chain of redo records
/// that the replay produced gives back the first store and the first chain.
pub proof fn lemma_chain_round_trip(m: Map<u32, ColorElement>, c: Seq<Seq<Saved>>)
    requires
        chain_wf(c),
        revert_chain(m, c) is Some,
    ensures
        chain_wf(revert_chain(m, c).unwrap().1),
        revert_chain(revert_chain(m, c).unwrap().0, revert_chain(m, c).unwrap().1) == Some((m, c)),
    decreases c.len(),
{
    if c.len() > 0 {
        let x = c.last();
        let init = c.drop_last();
        assert(distinct(x));
        let (m1, rx) = revert(m, x).unwrap();
        assert(chain_wf(init)) by {
            assert forall|i: int| 0 <= i < init.len() implies distinct(#[trigger] init[i]) by {
                assert(init[i] == c[i]);
            }
        }
        lemma_revert_round_trip(m, x);
        lemma_chain_round_trip(m1, init);
        let (m2, rinit) = revert_chain(m1, init).unwrap();
        let rc = seq![rx] + rinit;
        assert forall|i: int| 0 <= i < rc.len() implies distinct(#[trigger] rc[i]) by {
            if i > 0 {
                assert(rc[i] == rinit[i - 1]);
            }
        }
        lemma_chain_prepend(m2, rx, rinit);
        assert(init + seq![x] =~= c);
    }
}

/// Whether the chain of undo records `c`, replayed against `post`, gives back
/// `pre`.
pub open spec fn undoes(c: Seq<Seq<Saved>>, post: Map<u32, ColorElement>, pre: Map<u32, ColorElement>) -> bool {
    &&& chain_wf(c)
    &&& revert_chain(post, c) matches Some((m, _)) && m == pre
}

/// Replaying `a + b` replays `b`, then `a`.
pub proof fn lemma_chain_append(m: Map<u32, ColorElement>, a: Seq<Seq<Saved>>, b: Seq<Seq<Saved>>)
    ensures
        revert_chain(m, a + b) == match revert_chain(m, b) {
            None => None,
            Some((m1, rb)) => match revert_chain(m1, a) {
                None => None,
                Some((m2, ra)) => Some((m2, rb + ra)),
            },
        },
    decreases b.len(),
{
    if b.len() == 0 {
        assert(a + b =~= a);
        if let Some((m2, ra)) = revert_chain(m, a) {
            assert(Seq::<Seq<Saved>>::empty() + ra =~= ra);
        }
    } else {
        assert((a + b).last() == b.last());
        assert((a + b).drop_last() =~= a + b.drop_last());
        match revert(m, b.last()) {
            None => {},
            Some((m1, r)) => {
                lemma_chain_append(m1, a, b.drop_last());
                match revert_chain(m1, b.drop_last()) {
                    None => {},
                    Some((m2, rs)) => {
                        if let Some((m3, ra)) = revert_chain(m2, a) {
                            assert(seq![r] + (rs + ra) =~= (seq![r] + rs) + ra);
                        }
                    },
                }
            },
        }
    }
}

/// Undo chains compose: undoing `b` and then `a` undoes the two changes
/// that they undo, in reverse order.
pub proof fn lemma_undoes_compose(
    a: Seq<Seq<Saved>>,
    b: Seq<Seq<Saved>>,
    s0: Map<u32, ColorElement>,
    s1: Map<u32, ColorElement>,
    s2: Map<u32, ColorElement>,
)
    requires
        undoes(a, s1, s0),
        undoes(b, s2, s1),
    ensures
        undoes(a + b, s2, s0),
{
    lemma_chain_append(s2, a, b);
    assert forall|i: int| 0 <= i < (a + b).len() implies distinct(#[trigger] (a + b)[i]) by {
        if i < a.len() {
            assert((a + b)[i] == a[i]);
        } else {
            assert((a + b)[i] == b[i - a.len()]);
        }
    }
}

/// An applied change and its history entry: replaying the entry's undo
/// chain against the changed store gives back the store as it was, and
/// replaying the redo chain that this produces gives back the changed store
/// and the first undo chain.
pub proof fn lemma_undo_then_redo(c: Seq<Seq<Saved>>, post: Map<u32, ColorElement>, pre: Map<u32, ColorElement>)
    requires
        undoes(c, post, pre),
    ensures
        revert_chain(post, c) matches Some((m, rc)) && m == pre && undoes(rc, pre, post)
            && revert_chain(pre, rc) == Some((post, c)),
{
    lemma_chain_round_trip(post, c);
}

/// Restores a saved set of cell contents. Each address is saved once; an
/// entry that says the address held no cell is never overwritten, so that
/// replaying the record deletes a cell that the recorded operation created
/// even where it went on to change it.
#[derive(Debug)]
pub struct Undo {
    undoing: OperationInfo,
    saved: Vec<Saved>,
}

impl View for Undo {
    type V = Seq<Saved>;

    closed spec fn view(&self) -> Seq<Saved> {
        self.saved@
    }
}

/// The records of a chain, as saved entries.
pub open spec fn chain_of(c: Seq<Undo>) -> Seq<Seq<Saved>> {
    Seq::new(c.len(), |i: int| c[i]@)
}

impl Undo {
    /// The operation this record undoes.
    pub closed spec fn undoing_spec(&self) -> OperationInfo {
        self.undoing
    }

    pub(crate) fn new(undoing: OperationInfo) -> (u: Undo)
        ensures
            u@ == Seq::<Saved>::empty(),
            u.undoing_spec() == undoing,
    {
        Undo { undoing, saved: Vec::new() }
    }

    /// Creates an empty undo record for the given operation.
    pub fn new_for<O: PaletteOperation>(operation: &O) -> (u: Undo)
        ensures
            u@ == Seq::<Saved>::empty(),
            u.undoing_spec() == operation.info_spec(),
    {
        Undo { undoing: operation.info(), saved: Vec::new() }
    }

    /// Returns the operation this record undoes.
    pub fn info(&self) -> (r: OperationInfo)
        ensures
            r == self.undoing_spec(),
    {
        self.undoing
    }

    /// Returns the number of saved addresses.
    pub fn len(&self) -> (r: usize)
        ensures
            r == self@.len(),
    {
        self.saved.len()
    }

    /// Records what the address held before a change. The first record for
    /// an address wins: a later record for an address already saved is
    /// ignored.
    pub fn record(&mut self, address: Address, element: Option<ColorElement>)
        requires
            distinct(old(self)@),
        ensures
            distinct(final(self)@),
            final(self).undoing_spec() == old(self).undoing_spec(),
            !saves(old(self)@, address) ==> final(self)@ == old(self)@.push((address, element)),
            saves(old(self)@, address) ==> final(self)@ == old(self)@,
    {
        let mut i: usize = 0;
        while i < self.saved.len()
            invariant
                0 <= i <= self.saved@.len(),
                self.saved@ == old(self)@,
                distinct(old(self)@),
                self.undoing == old(self).undoing_spec(),
                forall|j: int| 0 <= j < i ==> self.saved@[j].0 != address,
            decreases self.saved@.len() - i,
        {
            if self.saved[i].0 == address {
                return;
            }
            i = i + 1;
        }
        self.saved.push((address, element));
    }

    /// Replays the record against the store, the last saved entry first, and
    /// returns the redo record. Fails with `InvalidState` where an entry asks
    /// to delete a cell that is not there; the entries replayed until then
    /// stay replayed.
    pub fn replay(self, data: &mut Data) -> (r: Result<Undo, Error>)
        requires
            distinct(self@),
        ensures
            revert(old(data)@, self@) matches Some((m, redo)) ==> r matches Ok(u) && final(data)@ == m
                && u@ == redo && u.undoing_spec() == OperationInfo::Undo,
            revert(old(data)@, self@) is None ==> r matches Err(Error::InvalidState(_)),
    {
        let ghost m0 = data@;
        let ghost s0 = self@;
        let mut saved = self.saved;
        let mut redo = Undo::new(OperationInfo::Undo);
        while saved.len() > 0
            invariant
                m0 == old(data)@,
                s0 == self@,
                distinct(saved@),
                distinct(redo@),
                redo.undoing_spec() == OperationInfo::Undo,
                forall|j: int| 0 <= j < saved@.len() ==> !saves(redo@, (#[trigger] saved@[j]).0),
                revert(m0, s0) == match revert(data@, saved@) {
                    None => None,
                    Some((m2, r)) => Some((m2, redo@ + r)),
                },
            decreases saved@.len(),
        {
            let ghost before = saved@;
            let ghost redo_before = redo@;
            let ghost m_before = data@;
            let (a, v) = saved.pop().unwrap();
            assert(saved@ == before.drop_last());
            assert(!saves(redo@, a)) by {
                assert(before[before.len() - 1].0 == a);
            }
            match v {
                Some(e) => {
                    let prev = data.set_cell(a, e);
                    redo.record(a, prev);
                },
                None => {
                    match data.remove_cell(a) {
                        Ok(e) => {
                            redo.record(a, Some(e));
                        },
                        Err(_) => {
                            assert(before.last() == (a, v));
                            assert(revert_step(m_before, a, v) is None);
                            assert(revert(m_before, before) is None);
                            assert(revert(m0, s0) is None);
                            return Err(Error::InvalidState(a));
                        },
                    }
                },
            }
            proof {
                assert(distinct(saved@));
                assert forall|j: int| 0 <= j < saved@.len() implies !saves(redo@, (#[trigger] saved@[j]).0) by {
                    assert(saved@[j] == before[j]);
                    assert(before[j].0 != before[before.len() - 1].0);
                    if saves(redo@, saved@[j].0) {
                        let x = choose|x: int| 0 <= x < redo@.len() && (#[trigger] redo@[x]).0 == saved@[j].0;
                        if x < redo_before.len() {
                            assert(redo_before[x] == redo@[x]);
                        }
                    }
                }
                match revert(data@, saved@) {
                    None => {},
                    Some((m2, r)) => {
                        let entry = redo@[redo@.len() - 1];
                        assert(redo_before + (seq![entry] + r) =~= redo@ + r);
                    },
                }
            }
        }
        assert(redo@ + Seq::<Saved>::empty() =~= redo@);
        Ok(redo)
    }

    /// Replays the record against the store and returns the history entry
    /// whose undo redoes the change.
    pub fn apply(self, data: &mut Data) -> (r: Result<HistoryEntry, Error>)
        requires
            distinct(self@),
        ensures
            revert(old(data)@, self@) matches Some((m, redo)) ==> r matches Ok(h) && final(data)@ == m
                && h.chain() == seq![redo] && h.info == OperationInfo::Undo,
            revert(old(data)@, self@) is None ==> r matches Err(Error::InvalidState(_)),
    {
        let redo = self.replay(data)?;
        let undo = vec![redo];
        let h = HistoryEntry { info: OperationInfo::Undo, undo };
        assert(h.chain() =~= seq![undo@[0]@]);
        Ok(h)
    }
}

/// The record of an applied operation: what it was, and the chain of undo
/// records that reverses it, replayed last record first.
#[derive(Debug)]
pub struct HistoryEntry {
    /// The operation that was applied.
    pub info: OperationInfo,
    /// The undo records, replayed from the last to the first.
    pub undo: Vec<Undo>,
}

impl HistoryEntry {
    /// The undo chain as saved entries.
    pub open spec fn chain(&self) -> Seq<Seq<Saved>> {
        chain_of(self.undo@)
    }

    /// Replays the undo chain against the store, the last record first, and
    /// returns the history entry whose undo chain redoes the change. Fails
    /// with `InvalidState` where a record asks to delete a missing cell.
    pub fn apply(self, data: &mut Data) -> (r: Result<HistoryEntry, Error>)
        requires
            chain_wf(self.chain()),
        ensures
            revert_chain(old(data)@, self.chain()) matches Some((m, rc)) ==> r matches Ok(h)
                && final(data)@ == m && h.chain() == rc && h.info == OperationInfo::Undo,
            revert_chain(old(data)@, self.chain()) is None ==> r matches Err(Error::InvalidState(_)),
    {
        let ghost m0 = data@;
        let ghost c0 = self.chain();
        let mut undo = self.undo;
        let mut redo: Vec<Undo> = Vec::new();
        assert(chain_of(undo@) == c0);
        while undo.len() > 0
            invariant
                m0 == old(data)@,
                c0 == self.chain(),
                chain_wf(chain_of(undo@)),
                revert_chain(m0, c0) == match revert_chain(data@, chain_of(undo@)) {
                    None => None,
                    Some((m2, rs)) => Some((m2, chain_of(redo@) + rs)),
                },
            decreases undo@.len(),
        {
            let ghost before = undo@;
            let ghost redo_before = chain_of(redo@);
            let u = undo.pop().unwrap();
            assert(chain_of(undo@) =~= chain_of(before).drop_last());
            assert(chain_of(before).last() == u@);
            assert(distinct(u@)) by {
                assert(chain_of(before)[before.len() - 1] == u@);
            }
            let ghost m_before = data@;
            let ghost uv = u@;
            let r = match u.replay(data) {
                Ok(r) => r,
                Err(e) => {
                    assert(revert(m_before, uv) is None);
                    assert(revert_chain(m_before, chain_of(before)) is None);
                    assert(revert_chain(m0, c0) is None);
                    return Err(e);
                },
            };
            redo.push(r);
            proof {
                assert(chain_of(redo@) =~= redo_before.push(r@));
                assert forall|i: int| 0 <= i < chain_of(undo@).len() implies distinct(#[trigger] chain_of(undo@)[i]) by {
                    assert(chain_of(undo@)[i] == chain_of(before)[i]);
                }
                match revert_chain(data@, chain_of(undo@)) {
                    None => {},
                    Some((m2, rs)) => {
                        assert(redo_before + (seq![r@] + rs) =~= chain_of(redo@) + rs);
                    },
                }
            }
        }
        assert(chain_of(undo@) =~= Seq::<Seq<Saved>>::empty());
        assert(chain_of(redo@) + Seq::<Seq<Saved>>::empty() =~= chain_of(redo@));
        Ok(HistoryEntry { info: OperationInfo::Undo, undo: redo })
    }
}

} // verus!

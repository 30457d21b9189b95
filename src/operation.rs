//! Reversible mutation commands on the cell store.
use crate::address::Address;
use crate::color::{Color, ColorElement, Mixer};
use crate::data::{Data, first_free_from, full, key_of, lemma_key_of, lookup, occupied, resolve_spec};
use crate::error::Error;
use crate::ramp::InsertRamp;
use crate::undo::{
    HistoryEntry,
    OperationInfo,
    Saved,
    Undo,
    chain_of,
    chain_wf,
    distinct,
    revert,
    revert_chain,
    lemma_undoes_compose,
    lemma_tracks_reverts,
    saves,
    tracks,
    undoes,
};
use vstd::prelude::*;

verus! {

proof fn lemma_track_change(
    s: Seq<Saved>,
    pre: Map<u32, ColorElement>,
    cur: Map<u32, ColorElement>,
    a: Address,
    next: Map<u32, ColorElement>,
)
    requires
        tracks(s, pre, cur),
        !saves(s, a),
        forall|k: u32| k != key_of(a) ==> #[trigger] lookup(next, k) == lookup(cur, k),
        cur.contains_key(key_of(a)) || next.contains_key(key_of(a)),
    ensures
        tracks(s.push((a, lookup(cur, key_of(a)))), pre, next),
{
    let t = s.push((a, lookup(cur, key_of(a))));
    assert forall|i: int, j: int| 0 <= i < j < t.len() implies (#[trigger] t[i]).0 != (#[trigger] t[j]).0 by {
        if j == s.len() {
            assert(t[i] == s[i]);
        } else {
            assert(t[i] == s[i] && t[j] == s[j]);
        }
    }
    assert forall|i: int| 0 <= i < t.len() implies lookup(pre, key_of((#[trigger] t[i]).0)) == t[i].1 && (
    t[i].1 is None ==> next.contains_key(key_of(t[i].0))) by {
        if i < s.len() {
            assert(t[i] == s[i]);
            lemma_key_of(s[i].0, a);
            assert(lookup(next, key_of(s[i].0)) == lookup(cur, key_of(s[i].0)));
        }
    }
    assert forall|b: Address| !saves(t, b) implies lookup(next, key_of(b)) == lookup(pre, key_of(b)) by {
        assert(t[s.len() as int].0 == a);
        if saves(s, b) {
            let i = choose|i: int| 0 <= i < s.len() && (#[trigger] s[i]).0 == b;
            assert(t[i] == s[i]);
        }
        lemma_key_of(a, b);
    }
}

pub(crate) proof fn lemma_single_undoes(u: Seq<Saved>, pre: Map<u32, ColorElement>, post: Map<u32, ColorElement>)
    requires
        tracks(u, pre, post),
    ensures
        undoes(seq![u], post, pre),
{
    lemma_tracks_reverts(u, pre, post);
    let c = seq![u];
    assert(c.last() == u);
    assert(c.drop_last() =~= Seq::<Seq<Saved>>::empty());
    let m1 = revert(post, u).unwrap().0;
    assert(revert_chain(m1, c.drop_last()) == Some((m1, Seq::<Seq<Saved>>::empty())));
    assert(chain_wf(c)) by {
        assert forall|i: int| 0 <= i < c.len() implies distinct(#[trigger] c[i]) by {
            assert(c[i] == u);
        }
    }
}

/// Puts `element` at the address and records what was there.
pub(crate) fn set_target(
    data: &mut Data,
    a: Address,
    element: ColorElement,
    undo: &mut Undo,
    Ghost(pre): Ghost<Map<u32, ColorElement>>,
)
    requires
        tracks(old(undo)@, pre, old(data)@),
        !saves(old(undo)@, a),
    ensures
        tracks(final(undo)@, pre, final(data)@),
        final(undo)@ == old(undo)@.push((a, lookup(old(data)@, key_of(a)))),
        final(undo).undoing_spec() == old(undo).undoing_spec(),
        final(data)@ == old(data)@.insert(key_of(a), element),
{
    let ghost cur = data@;
    let prev = data.set_cell(a, element);
    undo.record(a, prev);
    proof {
        lemma_track_change(old(undo)@, pre, cur, a, data@);
    }
}

/// Makes sure a source cell exists at the address: an existing cell is left
/// alone; a missing one is created as a black placeholder where `make` is
/// set, and is an error otherwise.
pub(crate) fn get_source(
    data: &mut Data,
    a: Address,
    make: bool,
    undo: &mut Undo,
    Ghost(pre): Ghost<Map<u32, ColorElement>>,
) -> (r: Result<(), Error>)
    requires
        tracks(old(undo)@, pre, old(data)@),
        !saves(old(undo)@, a) || occupied(old(data)@, a),
    ensures
        tracks(final(undo)@, pre, final(data)@),
        final(undo).undoing_spec() == old(undo).undoing_spec(),
        occupied(old(data)@, a) ==> r is Ok && final(data)@ == old(data)@ && final(undo)@ == old(undo)@,
        !occupied(old(data)@, a) && make ==> r is Ok && final(data)@ == old(data)@.insert(
            key_of(a),
            ColorElement::Color(Color { r: 0, g: 0, b: 0 }),
        ) && final(undo)@ == old(undo)@.push((a, None)),
        !occupied(old(data)@, a) && !make ==> r == Err::<(), Error>(Error::MissingSource(a))
            && final(data)@ == old(data)@ && final(undo)@ == old(undo)@,
{
    if data.cell(a).is_some() {
        return Ok(());
    }
    if !make {
        return Err(Error::MissingSource(a));
    }
    let ghost cur = data@;
    let _ = data.create_cell(a, ColorElement::Color(Color::new(0, 0, 0)));
    undo.record(a, None);
    proof {
        lemma_track_change(old(undo)@, pre, cur, a, data@);
    }
    Ok(())
}

/// The address an insertion goes to: the given location, or else the first
/// free address.
pub open spec fn placed_at(m: Map<u32, ColorElement>, location: Option<Address>, a: Address) -> bool {
    match location {
        Some(l) => a == l,
        None => first_free_from(m, Address::origin(), a),
    }
}

/// Whether an insertion at the given location is refused because the
/// location is occupied and may not be overwritten.
pub open spec fn blocked(m: Map<u32, ColorElement>, location: Option<Address>, overwrite: bool) -> bool {
    match location {
        Some(l) => !overwrite && occupied(m, l),
        None => false,
    }
}

fn place(data: &Data, location: Option<Address>) -> (r: Result<Address, Error>)
    ensures
        r matches Ok(a) ==> placed_at(data@, location, a),
        r is Err ==> location is None && full(data@) && r == Err::<Address, Error>(Error::PaletteFull),
        location is None && !full(data@) ==> r is Ok,
        location is Some ==> r is Ok,
{
    match location {
        Some(a) => Ok(a),
        None => data.first_free_address_after(Address::new(0, 0, 0)),
    }
}

fn single_entry(info: OperationInfo, undo: Undo) -> (h: HistoryEntry)
    ensures
        h.info == info,
        h.chain() == seq![undo@],
{
    let v = vec![undo];
    let h = HistoryEntry { info, undo: v };
    assert(h.chain() =~= seq![undo@]);
    h
}

/// Inserts a terminal color cell.
#[derive(Debug, Clone, Copy)]
pub struct InsertColor {
    /// The color to insert.
    pub color: Color,
    /// Where to insert it; the first free address where unset.
    pub location: Option<Address>,
    /// Whether an occupied location may be overwritten.
    pub overwrite: bool,
}

impl InsertColor {
    /// Creates an operation inserting `color` at the first free address.
    pub fn new(color: Color) -> (r: InsertColor)
        ensures
            r == (InsertColor { color, location: None, overwrite: false }),
    {
        InsertColor { color, location: None, overwrite: false }
    }

    /// Sets the address to insert at.
    pub fn located_at(self, location: Address) -> (r: InsertColor)
        ensures
            r == (InsertColor { location: Some(location), ..self }),
    {
        InsertColor { location: Some(location), ..self }
    }

    /// Sets whether an occupied location may be overwritten.
    pub fn overwrite(self, overwrite: bool) -> (r: InsertColor)
        ensures
            r == (InsertColor { overwrite, ..self }),
    {
        InsertColor { overwrite, ..self }
    }

    /// The store after a successful insertion into `pre`.
    pub open spec fn ok_effect(self, pre: Map<u32, ColorElement>, post: Map<u32, ColorElement>) -> bool {
        !blocked(pre, self.location, self.overwrite) && exists|a: Address|
            placed_at(pre, self.location, a) && post == pre.insert(key_of(a), ColorElement::Color(self.color))
    }

    /// When the insertion into `pre` fails with `e`; the store is left as it
    /// was.
    pub open spec fn err_effect(self, pre: Map<u32, ColorElement>, post: Map<u32, ColorElement>, e: Error) -> bool {
        post == pre && match self.location {
            None => full(pre) && e == Error::PaletteFull,
            Some(a) => !self.overwrite && occupied(pre, a) && e == Error::SlotOccupied(a),
        }
    }

    /// Puts a cell holding the color at the location, or at the first free
    /// address. Fails with `SlotOccupied` at an occupied location unless
    /// overwriting, and with `PaletteFull` where no address is free.
    pub fn apply(self, data: &mut Data) -> (r: Result<HistoryEntry, Error>)
        ensures
            r matches Ok(h) ==> undoes(h.chain(), final(data)@, old(data)@) && h.info
                == OperationInfo::InsertColor && exists|a: Address|
                placed_at(old(data)@, self.location, a) && final(data)@ == old(data)@.insert(
                    key_of(a),
                    ColorElement::Color(self.color),
                ),
            r is Err ==> final(data)@ == old(data)@,
            r is Err <==> (self.location is None && full(old(data)@)) || blocked(
                old(data)@,
                self.location,
                self.overwrite,
            ),
            self.location is None && full(old(data)@) ==> r == Err::<HistoryEntry, Error>(Error::PaletteFull),
            self.location matches Some(a) ==> (!self.overwrite && occupied(old(data)@, a) ==> r
                == Err::<HistoryEntry, Error>(Error::SlotOccupied(a))),
            r is Ok ==> self.ok_effect(old(data)@, final(data)@),
            r matches Err(e) ==> self.err_effect(old(data)@, final(data)@, e),
    {
        let target = place(data, self.location)?;
        if !self.overwrite && data.cell(target).is_some() {
            return Err(Error::SlotOccupied(target));
        }
        let ghost pre = data@;
        let mut undo = Undo::new(OperationInfo::InsertColor);
        set_target(data, target, ColorElement::Color(self.color), &mut undo, Ghost(pre));
        proof {
            lemma_single_undoes(undo@, pre, data@);
        }
        Ok(single_entry(OperationInfo::InsertColor, undo))
    }
}

/// Removes the cell at an address.
#[derive(Debug, Clone, Copy)]
pub struct RemoveElement {
    /// The address of the cell to remove.
    pub location: Address,
}

impl RemoveElement {
    /// Creates an operation removing the cell at the address.
    pub fn new(location: Address) -> (r: RemoveElement)
        ensures
            r.location == location,
    {
        RemoveElement { location }
    }

    /// The store after a successful removal from `pre`.
    pub open spec fn ok_effect(self, pre: Map<u32, ColorElement>, post: Map<u32, ColorElement>) -> bool {
        occupied(pre, self.location) && post == pre.remove(key_of(self.location))
    }

    /// When the removal from `pre` fails with `e`; the store is left as it
    /// was.
    pub open spec fn err_effect(self, pre: Map<u32, ColorElement>, post: Map<u32, ColorElement>, e: Error) -> bool {
        post == pre && !occupied(pre, self.location) && e == Error::SlotEmpty(self.location)
    }

    /// Deletes the cell. Fails with `SlotEmpty` where there is none.
    pub fn apply(self, data: &mut Data) -> (r: Result<HistoryEntry, Error>)
        ensures
            r matches Ok(h) ==> undoes(h.chain(), final(data)@, old(data)@) && h.info
                == OperationInfo::RemoveElement && final(data)@ == old(data)@.remove(key_of(self.location)),
            occupied(old(data)@, self.location) <==> r is Ok,
            r is Err ==> r == Err::<HistoryEntry, Error>(Error::SlotEmpty(self.location)) && final(data)@
                == old(data)@,
            r is Ok ==> self.ok_effect(old(data)@, final(data)@),
            r matches Err(e) ==> self.err_effect(old(data)@, final(data)@, e),
    {
        let ghost pre = data@;
        let mut undo = Undo::new(OperationInfo::RemoveElement);
        let removed = data.remove_cell(self.location)?;
        undo.record(self.location, Some(removed));
        proof {
            lemma_track_change(Seq::empty(), pre, pre, self.location, data@);
            assert(lookup(pre, key_of(self.location)) == Some(removed));
            lemma_single_undoes(undo@, pre, data@);
        }
        Ok(single_entry(OperationInfo::RemoveElement, undo))
    }
}

/// Copies the resolved color of one cell into another address as a
/// terminal color.
#[derive(Debug, Clone, Copy)]
pub struct CopyColor {
    /// The cell to copy from.
    pub source: Address,
    /// The address to copy to.
    pub target: Address,
    /// Whether an occupied target may be overwritten.
    pub overwrite: bool,
}

impl CopyColor {
    /// Creates an operation copying the color at `source` to `target`.
    pub fn new(source: Address, target: Address) -> (r: CopyColor)
        ensures
            r == (CopyColor { source, target, overwrite: false }),
    {
        CopyColor { source, target, overwrite: false }
    }

    /// Sets whether an occupied target may be overwritten.
    pub fn overwrite(self, overwrite: bool) -> (r: CopyColor)
        ensures
            r == (CopyColor { overwrite, ..self }),
    {
        CopyColor { overwrite, ..self }
    }

    /// The store after a successful copy within `pre`.
    pub open spec fn ok_effect(self, pre: Map<u32, ColorElement>, post: Map<u32, ColorElement>) -> bool {
        match resolve_spec(pre, self.source, Seq::empty()) {
            Ok(c) => !(!self.overwrite && occupied(pre, self.target)) && post == pre.insert(
                key_of(self.target),
                ColorElement::Color(c),
            ),
            Err(_) => false,
        }
    }

    /// When the copy within `pre` fails with `e`; the store is left as it
    /// was.
    pub open spec fn err_effect(self, pre: Map<u32, ColorElement>, post: Map<u32, ColorElement>, e: Error) -> bool {
        post == pre && match resolve_spec(pre, self.source, Seq::empty()) {
            Ok(_) => !self.overwrite && occupied(pre, self.target) && e == Error::SlotOccupied(self.target),
            Err(e0) => e == e0,
        }
    }

    /// Resolves the source's color and puts it at the target. Fails where
    /// the source does not resolve, and with `SlotOccupied` at an occupied
    /// target unless overwriting.
    pub fn apply(self, data: &mut Data) -> (r: Result<HistoryEntry, Error>)
        ensures
            resolve_spec(old(data)@, self.source, Seq::empty()) matches Err(e) ==> r == Err::<
                HistoryEntry,
                Error,
            >(e),
            resolve_spec(old(data)@, self.source, Seq::empty()) matches Ok(c) ==> if !self.overwrite
                && occupied(old(data)@, self.target) {
                r == Err::<HistoryEntry, Error>(Error::SlotOccupied(self.target))
            } else {
                r matches Ok(h) && undoes(h.chain(), final(data)@, old(data)@) && h.info
                    == OperationInfo::CopyColor && final(data)@ == old(data)@.insert(
                    key_of(self.target),
                    ColorElement::Color(c),
                )
            },
            r is Err ==> final(data)@ == old(data)@,
            r is Ok ==> self.ok_effect(old(data)@, final(data)@),
            r matches Err(e) ==> self.err_effect(old(data)@, final(data)@, e),
    {
        let c = data.resolve(self.source)?;
        if !self.overwrite && data.cell(self.target).is_some() {
            return Err(Error::SlotOccupied(self.target));
        }
        let ghost pre = data@;
        let mut undo = Undo::new(OperationInfo::CopyColor);
        set_target(data, self.target, ColorElement::Color(c), &mut undo, Ghost(pre));
        proof {
            lemma_single_undoes(undo@, pre, data@);
        }
        Ok(single_entry(OperationInfo::CopyColor, undo))
    }
}

/// Inserts a cell that passes through the color of another cell.
#[derive(Debug, Clone, Copy)]
pub struct InsertWatcher {
    /// The cell to watch.
    pub source: Address,
    /// Where to insert the watcher; the first free address where unset.
    pub location: Option<Address>,
    /// Whether an occupied location may be overwritten.
    pub overwrite: bool,
}

/// Whether the element is a watcher of `source`.
pub open spec fn is_watcher_of(e: ColorElement, source: Address) -> bool {
    e matches ColorElement::Mixed { mixer, sources } && mixer == Mixer::Watch && sources@ == seq![source]
}

impl InsertWatcher {
    /// Creates an operation inserting a watcher of `source` at the first
    /// free address.
    pub fn new(source: Address) -> (r: InsertWatcher)
        ensures
            r == (InsertWatcher { source, location: None, overwrite: false }),
    {
        InsertWatcher { source, location: None, overwrite: false }
    }

    /// Sets the address to insert at.
    pub fn located_at(self, location: Address) -> (r: InsertWatcher)
        ensures
            r == (InsertWatcher { location: Some(location), ..self }),
    {
        InsertWatcher { location: Some(location), ..self }
    }

    /// Sets whether an occupied location may be overwritten.
    pub fn overwrite(self, overwrite: bool) -> (r: InsertWatcher)
        ensures
            r == (InsertWatcher { overwrite, ..self }),
    {
        InsertWatcher { overwrite, ..self }
    }

    /// The store after a successful insertion into `pre`: a watcher of the
    /// source at the placed address, every other address unchanged.
    pub open spec fn ok_effect(self, pre: Map<u32, ColorElement>, post: Map<u32, ColorElement>) -> bool {
        occupied(pre, self.source) && !blocked(pre, self.location, self.overwrite) && exists|a: Address|
            placed_at(pre, self.location, a) && post.dom() == pre.dom().insert(key_of(a))
                && is_watcher_of(post[key_of(a)], self.source) && forall|k: u32|
                k != key_of(a) ==> #[trigger] lookup(post, k) == lookup(pre, k)
    }

    /// When the insertion into `pre` fails with `e`; the store is left as it
    /// was.
    pub open spec fn err_effect(self, pre: Map<u32, ColorElement>, post: Map<u32, ColorElement>, e: Error) -> bool {
        post == pre && if !occupied(pre, self.source) {
            e == Error::MissingSource(self.source)
        } else {
            match self.location {
                None => full(pre) && e == Error::PaletteFull,
                Some(a) => !self.overwrite && occupied(pre, a) && e == Error::SlotOccupied(a),
            }
        }
    }

    /// Puts a watcher of the source at the location, or at the first free
    /// address. Fails with `MissingSource` where the source holds no cell,
    /// `PaletteFull` where no address is free, and `SlotOccupied` at an
    /// occupied location unless overwriting.
    pub fn apply(self, data: &mut Data) -> (r: Result<HistoryEntry, Error>)
        ensures
            !occupied(old(data)@, self.source) ==> r == Err::<HistoryEntry, Error>(
                Error::MissingSource(self.source),
            ),
            occupied(old(data)@, self.source) && self.location is None && full(old(data)@) ==> r
                == Err::<HistoryEntry, Error>(Error::PaletteFull),
            occupied(old(data)@, self.source) ==> (self.location matches Some(a) ==> (!self.overwrite
                && occupied(old(data)@, a) ==> r == Err::<HistoryEntry, Error>(Error::SlotOccupied(a)))),
            r is Err <==> !occupied(old(data)@, self.source) || (self.location is None && full(
                old(data)@,
            )) || blocked(old(data)@, self.location, self.overwrite),
            r is Err ==> final(data)@ == old(data)@,
            r matches Ok(h) ==> undoes(h.chain(), final(data)@, old(data)@) && h.info
                == OperationInfo::InsertWatcher && exists|a: Address|
                placed_at(old(data)@, self.location, a) && final(data)@.dom() == old(data)@.dom().insert(
                    key_of(a),
                ) && is_watcher_of(final(data)@[key_of(a)], self.source) && forall|k: u32|
                    k != key_of(a) ==> #[trigger] lookup(final(data)@, k) == lookup(old(data)@, k),
            r is Ok ==> self.ok_effect(old(data)@, final(data)@),
            r matches Err(e) ==> self.err_effect(old(data)@, final(data)@, e),
    {
        if data.cell(self.source).is_none() {
            return Err(Error::MissingSource(self.source));
        }
        let target = place(data, self.location)?;
        if !self.overwrite && data.cell(target).is_some() {
            return Err(Error::SlotOccupied(target));
        }
        let ghost pre = data@;
        let mut undo = Undo::new(OperationInfo::InsertWatcher);
        let sources = vec![self.source];
        assert(sources@ =~= seq![self.source]);
        let element = ColorElement::Mixed { mixer: Mixer::Watch, sources };
        assert(is_watcher_of(element, self.source));
        set_target(data, target, element, &mut undo, Ghost(pre));
        proof {
            lemma_single_undoes(undo@, pre, data@);
            assert(data@.dom() =~= pre.dom().insert(key_of(target)));
        }
        Ok(single_entry(OperationInfo::InsertWatcher, undo))
    }
}

/// One of the palette's mutation commands.
#[derive(Debug, Clone, Copy)]
pub enum Operation {
    /// Inserts a terminal color.
    InsertColor(InsertColor),
    /// Removes a cell.
    RemoveElement(RemoveElement),
    /// Copies a resolved color.
    CopyColor(CopyColor),
    /// Inserts a watcher of another cell.
    InsertWatcher(InsertWatcher),
    /// Inserts a ramp between two cells.
    InsertRamp(InsertRamp),
}

impl Operation {
    /// The store after the command succeeds on `pre`.
    pub open spec fn ok_effect(self, pre: Map<u32, ColorElement>, post: Map<u32, ColorElement>) -> bool {
        match self {
            Operation::InsertColor(op) => op.ok_effect(pre, post),
            Operation::RemoveElement(op) => op.ok_effect(pre, post),
            Operation::CopyColor(op) => op.ok_effect(pre, post),
            Operation::InsertWatcher(op) => op.ok_effect(pre, post),
            Operation::InsertRamp(op) => op.ok_effect(pre, post),
        }
    }

    /// When the command fails on `pre` with `e`, and the store it leaves.
    pub open spec fn err_effect(self, pre: Map<u32, ColorElement>, post: Map<u32, ColorElement>, e: Error) -> bool {
        match self {
            Operation::InsertColor(op) => op.err_effect(pre, post, e),
            Operation::RemoveElement(op) => op.err_effect(pre, post, e),
            Operation::CopyColor(op) => op.err_effect(pre, post, e),
            Operation::InsertWatcher(op) => op.err_effect(pre, post, e),
            Operation::InsertRamp(op) => op.err_effect(pre, post, e),
        }
    }

    /// Applies the command; on success its history entry's undo chain
    /// restores the store as it was.
    pub fn apply(self, data: &mut Data) -> (r: Result<HistoryEntry, Error>)
        ensures
            r matches Ok(h) ==> undoes(h.chain(), final(data)@, old(data)@),
            r is Ok ==> self.ok_effect(old(data)@, final(data)@),
            r matches Err(e) ==> self.err_effect(old(data)@, final(data)@, e),
            r is Err ==> final(data)@ == old(data)@,
    {
        match self {
            Operation::InsertColor(op) => op.apply(data),
            Operation::RemoveElement(op) => op.apply(data),
            Operation::CopyColor(op) => op.apply(data),
            Operation::InsertWatcher(op) => op.apply(data),
            Operation::InsertRamp(op) => op.apply(data),
        }
    }
}

proof fn lemma_undoes_empty(m: Map<u32, ColorElement>)
    ensures
        undoes(Seq::empty(), m, m),
{
}

/// Applies `op` to `data` and extends the undo chain that leads back to
/// `pre` by the new entry's chain.
fn apply_into(op: Operation, data: &mut Data, chain: &mut Vec<Undo>, Ghost(pre): Ghost<Map<u32, ColorElement>>) -> (r: Result<(), Error>)
    requires
        undoes(chain_of(old(chain)@), old(data)@, pre),
    ensures
        r is Ok ==> undoes(chain_of(final(chain)@), final(data)@, pre),
        r is Ok ==> op.ok_effect(old(data)@, final(data)@),
        r matches Err(e) ==> op.err_effect(old(data)@, final(data)@, e),
{
    let ghost mid = data@;
    let ghost c0 = chain_of(chain@);
    let mut h = op.apply(data)?;
    let ghost c1 = h.chain();
    chain.append(&mut h.undo);
    proof {
        assert(chain_of(chain@) =~= c0 + c1);
        lemma_undoes_compose(c0, c1, pre, mid, data@);
    }
    Ok(())
}

/// Whether applying the commands of `s` in order, each succeeding, leads
/// from store `pre` to store `post`.
pub open spec fn all_ok(s: Seq<Operation>, pre: Map<u32, ColorElement>, post: Map<u32, ColorElement>) -> bool
    decreases s.len(),
{
    if s.len() == 0 {
        post == pre
    } else {
        exists|mid: Map<u32, ColorElement>| all_ok(s.drop_last(), pre, mid) && #[trigger] s.last().ok_effect(mid, post)
    }
}

/// Whether applying the commands of `s` in order leads from `pre` to store
/// `mid`, where the command at `i` fails with `e`, leaving `post`.
pub open spec fn fails_at(
    s: Seq<Operation>,
    i: int,
    pre: Map<u32, ColorElement>,
    mid: Map<u32, ColorElement>,
    post: Map<u32, ColorElement>,
    e: Error,
) -> bool {
    0 <= i < s.len() && all_ok(s.take(i), pre, mid) && s[i].err_effect(mid, post, e)
}

proof fn lemma_all_ok_step(s: Seq<Operation>, i: int, pre: Map<u32, ColorElement>, mid: Map<u32, ColorElement>, post: Map<u32, ColorElement>)
    requires
        0 <= i < s.len(),
        all_ok(s.take(i), pre, mid),
        s[i].ok_effect(mid, post),
    ensures
        all_ok(s.take(i + 1), pre, post),
{
    let t = s.take(i + 1);
    assert(t.drop_last() =~= s.take(i));
    assert(t.last() == s[i]);
}

/// Whether applying the commands of `s` in order from `pre` stops at one
/// that fails with `e`, leaving `post`.
pub open spec fn fails_with(s: Seq<Operation>, pre: Map<u32, ColorElement>, post: Map<u32, ColorElement>, e: Error) -> bool {
    exists|i: int, mid: Map<u32, ColorElement>| fails_at(s, i, pre, mid, post, e)
}

/// Inserting a color at a free address and then removing the cell there,
/// in one sequence, leaves the store as it was.
pub proof fn lemma_insert_then_remove(
    color: Color,
    a: Address,
    overwrite: bool,
    pre: Map<u32, ColorElement>,
    post: Map<u32, ColorElement>,
)
    requires
        !occupied(pre, a),
        all_ok(
            seq![
                Operation::InsertColor(InsertColor { color, location: Some(a), overwrite }),
                Operation::RemoveElement(RemoveElement { location: a }),
            ],
            pre,
            post,
        ),
    ensures
        post == pre,
{
    let ins = Operation::InsertColor(InsertColor { color, location: Some(a), overwrite });
    let rem = Operation::RemoveElement(RemoveElement { location: a });
    let s = seq![ins, rem];
    assert(s.drop_last() =~= seq![ins]);
    assert(s.last() == rem);
    let mid = choose|mid: Map<u32, ColorElement>| all_ok(s.drop_last(), pre, mid) && #[trigger] s.last().ok_effect(mid, post);
    let one = seq![ins];
    assert(one.drop_last() =~= Seq::<Operation>::empty());
    assert(one.last() == ins);
    let m0 = choose|m0: Map<u32, ColorElement>| all_ok(one.drop_last(), pre, m0) && #[trigger] one.last().ok_effect(m0, mid);
    assert(m0 == pre);
    let b = choose|b: Address| placed_at(pre, Some(a), b) && mid == pre.insert(key_of(b), ColorElement::Color(color));
    assert(b == a);
    assert(post =~= pre);
}

/// Applies commands in order; its undo reverses them in the opposite order.
/// The first failure is returned, and the commands applied before it stay
/// applied.
#[derive(Debug)]
pub struct SequenceOperation {
    /// The commands, in the order they are applied.
    pub operations: Vec<Operation>,
}

impl SequenceOperation {
    /// Creates a sequence of the given commands.
    pub fn new(operations: Vec<Operation>) -> (r: SequenceOperation)
        ensures
            r.operations@ == operations@,
    {
        SequenceOperation { operations }
    }

    /// Applies every command in order.
    pub fn apply(self, data: &mut Data) -> (r: Result<HistoryEntry, Error>)
        ensures
            r matches Ok(h) ==> undoes(h.chain(), final(data)@, old(data)@) && h.info
                == OperationInfo::Sequence,
            r is Ok ==> all_ok(self.operations@, old(data)@, final(data)@),
            r matches Err(e) ==> fails_with(self.operations@, old(data)@, final(data)@, e),
    {
        let ghost pre = data@;
        let ghost all = self.operations@;
        let mut ops = self.operations;
        let n: usize = ops.len();
        let mut chain: Vec<Undo> = Vec::new();
        let mut i: usize = 0;
        proof {
            assert(chain_of(chain@) =~= Seq::<Seq<Saved>>::empty());
            lemma_undoes_empty(pre);
            assert(all.take(0) =~= Seq::<Operation>::empty());
            assert(ops@ =~= all.skip(0));
        }
        while ops.len() > 0
            invariant
                pre == old(data)@,
                all == self.operations@,
                0 <= i <= all.len(),
                ops@ == all.skip(i as int),
                ops@.len() == all.len() - i,
                all.len() == n,
                all_ok(all.take(i as int), pre, data@),
                undoes(chain_of(chain@), data@, pre),
            decreases ops@.len(),
        {
            let ghost mid = data@;
            let op = ops.remove(0);
            assert(op == all[i as int]);
            match apply_into(op, data, &mut chain, Ghost(pre)) {
                Ok(()) => {},
                Err(e) => {
                    assert(fails_at(all, i as int, pre, mid, data@, e));
                    assert(fails_with(all, pre, data@, e));
                    return Err(e);
                },
            }
            proof {
                lemma_all_ok_step(all, i as int, pre, mid, data@);
                assert(ops@ =~= all.skip(i + 1));
            }
            i = i + 1;
        }
        assert(all.take(i as int) =~= all);
        Ok(HistoryEntry { info: OperationInfo::Sequence, undo: chain })
    }
}

/// Applies one command a number of times; its undo reverses them all.
#[derive(Debug, Clone, Copy)]
pub struct RepeatOperation {
    /// The command to repeat.
    pub operation: Operation,
    /// How many times to apply it.
    pub count: usize,
}

impl RepeatOperation {
    /// The command, once for each repetition.
    pub open spec fn repeated(self) -> Seq<Operation> {
        Seq::new(self.count as nat, |i: int| self.operation)
    }

    /// Creates a repetition of `operation`, `count` times.
    pub fn new(operation: Operation, count: usize) -> (r: RepeatOperation)
        ensures
            r.count == count,
    {
        RepeatOperation { operation, count }
    }

    /// Applies the command `count` times. The first failure is returned, and
    /// the applications before it stay applied.
    pub fn apply(self, data: &mut Data) -> (r: Result<HistoryEntry, Error>)
        ensures
            r matches Ok(h) ==> undoes(h.chain(), final(data)@, old(data)@) && h.info
                == OperationInfo::Repeat,
            r is Ok ==> all_ok(self.repeated(), old(data)@, final(data)@),
            r matches Err(e) ==> fails_with(self.repeated(), old(data)@, final(data)@, e),
    {
        let ghost pre = data@;
        let ghost all = self.repeated();
        let mut chain: Vec<Undo> = Vec::new();
        proof {
            assert(chain_of(chain@) =~= Seq::<Seq<Saved>>::empty());
            lemma_undoes_empty(pre);
            assert(all.take(0) =~= Seq::<Operation>::empty());
        }
        let mut n: usize = 0;
        while n < self.count
            invariant
                pre == old(data)@,
                all == self.repeated(),
                n <= self.count,
                all_ok(all.take(n as int), pre, data@),
                undoes(chain_of(chain@), data@, pre),
            decreases self.count - n,
        {
            let ghost mid = data@;
            assert(all[n as int] == self.operation);
            match apply_into(self.operation, data, &mut chain, Ghost(pre)) {
                Ok(()) => {},
                Err(e) => {
                    assert(fails_at(all, n as int, pre, mid, data@, e));
                    assert(fails_with(all, pre, data@, e));
                    return Err(e);
                },
            }
            proof {
                lemma_all_ok_step(all, n as int, pre, mid, data@);
            }
            n = n + 1;
        }
        assert(all.take(n as int) =~= all);
        Ok(HistoryEntry { info: OperationInfo::Repeat, undo: chain })
    }
}

/// A mutation command on the cell store. On success, the returned history
/// entry's undo chain restores the store as it was before the command.
pub trait PaletteOperation: Sized {
    /// The name of the command.
    spec fn info_spec(&self) -> OperationInfo;

    /// Names the command.
    fn info(&self) -> (r: OperationInfo)
        ensures
            r == self.info_spec(),
    ;

    /// Applies the command to the store.
    fn apply(self, data: &mut Data) -> (r: Result<HistoryEntry, Error>)
        ensures
            r matches Ok(h) ==> undoes(h.chain(), final(data)@, old(data)@),
    ;
}

impl PaletteOperation for InsertColor {
    open spec fn info_spec(&self) -> OperationInfo {
        OperationInfo::InsertColor
    }

    fn info(&self) -> (r: OperationInfo) {
        OperationInfo::InsertColor
    }

    fn apply(self, data: &mut Data) -> (r: Result<HistoryEntry, Error>) {
        InsertColor::apply(self, data)
    }
}

impl PaletteOperation for RemoveElement {
    open spec fn info_spec(&self) -> OperationInfo {
        OperationInfo::RemoveElement
    }

    fn info(&self) -> (r: OperationInfo) {
        OperationInfo::RemoveElement
    }

    fn apply(self, data: &mut Data) -> (r: Result<HistoryEntry, Error>) {
        RemoveElement::apply(self, data)
    }
}

impl PaletteOperation for CopyColor {
    open spec fn info_spec(&self) -> OperationInfo {
        OperationInfo::CopyColor
    }

    fn info(&self) -> (r: OperationInfo) {
        OperationInfo::CopyColor
    }

    fn apply(self, data: &mut Data) -> (r: Result<HistoryEntry, Error>) {
        CopyColor::apply(self, data)
    }
}

impl PaletteOperation for InsertWatcher {
    open spec fn info_spec(&self) -> OperationInfo {
        OperationInfo::InsertWatcher
    }

    fn info(&self) -> (r: OperationInfo) {
        OperationInfo::InsertWatcher
    }

    fn apply(self, data: &mut Data) -> (r: Result<HistoryEntry, Error>) {
        InsertWatcher::apply(self, data)
    }
}

impl PaletteOperation for InsertRamp {
    open spec fn info_spec(&self) -> OperationInfo {
        OperationInfo::InsertRamp
    }

    fn info(&self) -> (r: OperationInfo) {
        OperationInfo::InsertRamp
    }

    fn apply(self, data: &mut Data) -> (r: Result<HistoryEntry, Error>) {
        InsertRamp::apply(self, data)
    }
}

impl PaletteOperation for Operation {
    open spec fn info_spec(&self) -> OperationInfo {
        match self {
            Operation::InsertColor(_) => OperationInfo::InsertColor,
            Operation::RemoveElement(_) => OperationInfo::RemoveElement,
            Operation::CopyColor(_) => OperationInfo::CopyColor,
            Operation::InsertWatcher(_) => OperationInfo::InsertWatcher,
            Operation::InsertRamp(_) => OperationInfo::InsertRamp,
        }
    }

    fn info(&self) -> (r: OperationInfo) {
        match self {
            Operation::InsertColor(_) => OperationInfo::InsertColor,
            Operation::RemoveElement(_) => OperationInfo::RemoveElement,
            Operation::CopyColor(_) => OperationInfo::CopyColor,
            Operation::InsertWatcher(_) => OperationInfo::InsertWatcher,
            Operation::InsertRamp(_) => OperationInfo::InsertRamp,
        }
    }

    fn apply(self, data: &mut Data) -> (r: Result<HistoryEntry, Error>) {
        Operation::apply(self, data)
    }
}

impl PaletteOperation for SequenceOperation {
    open spec fn info_spec(&self) -> OperationInfo {
        OperationInfo::Sequence
    }

    fn info(&self) -> (r: OperationInfo) {
        OperationInfo::Sequence
    }

    fn apply(self, data: &mut Data) -> (r: Result<HistoryEntry, Error>) {
        SequenceOperation::apply(self, data)
    }
}

impl PaletteOperation for RepeatOperation {
    open spec fn info_spec(&self) -> OperationInfo {
        OperationInfo::Repeat
    }

    fn info(&self) -> (r: OperationInfo) {
        OperationInfo::Repeat
    }

    fn apply(self, data: &mut Data) -> (r: Result<HistoryEntry, Error>) {
        RepeatOperation::apply(self, data)
    }
}

} // verus!

//! Linear color ramps between two source cells.
use crate::address::{Address, addr_lt};
use crate::color::{Color, ColorElement, Mixer};
use crate::data::{
    Data,
    full,
    key_of,
    lemma_key_of,
    lookup,
    occupied,
    qualifies,
    targets_spec,
    too_few_targets,
};
use crate::error::Error;
use crate::operation::{get_source, lemma_single_undoes, placed_at, set_target};
use crate::undo::{HistoryEntry, OperationInfo, Undo, saves, tracks, undoes};
use vstd::prelude::*;

verus! {

/// Creates a linear RGB color ramp of mixed cells between two source cells.
#[derive(Debug, Clone, Copy)]
pub struct InsertRamp {
    /// Where to start placing the ramp's cells; the first free address
    /// where unset.
    pub location: Option<Address>,
    /// The address of the ramp's starting color.
    pub from: Address,
    /// The address of the ramp's ending color.
    pub to: Address,
    /// The number of cells to create.
    pub count: usize,
    /// Whether occupied addresses may be overwritten by the ramp.
    pub overwrite: bool,
    /// Whether missing sources are created as placeholders rather than
    /// reported.
    pub make_sources: bool,
}

/// Whether the element is the `num / den` step of a ramp from `from` to `to`.
pub open spec fn is_ramp_step(e: ColorElement, from: Address, to: Address, num: int, den: int) -> bool {
    e matches ColorElement::Mixed { mixer, sources } && mixer == (Mixer::Ramp {
        num: num as u64,
        den: den as u64,
    }) && sources@ == seq![from, to]
}

/// Whether store `m` holds, at the `i`-th of the addresses `v`, the step
/// `(i + 1) / (count + 1)` of a ramp from `from` to `to`.
pub open spec fn ramp_placed(m: Map<u32, ColorElement>, v: Seq<Address>, from: Address, to: Address, count: int) -> bool {
    forall|i: int|
        0 <= i < v.len() ==> m.contains_key(key_of(#[trigger] v[i])) && is_ramp_step(
            m[key_of(v[i])],
            from,
            to,
            i + 1,
            count + 1,
        )
}

/// Whether source `a` holds in `post` what it held in `pre`, or a black
/// placeholder color where `pre` had no cell there.
pub open spec fn source_after(pre: Map<u32, ColorElement>, post: Map<u32, ColorElement>, a: Address) -> bool {
    post.contains_key(key_of(a)) && post[key_of(a)] == if occupied(pre, a) {
        pre[key_of(a)]
    } else {
        ColorElement::Color(Color { r: 0, g: 0, b: 0 })
    }
}

impl InsertRamp {
    /// Creates a ramp of `count` cells between the cells at `from` and `to`,
    /// placed from the first free address on.
    pub fn new(from: Address, to: Address, count: usize) -> (r: InsertRamp)
        ensures
            r == (InsertRamp { location: None, from, to, count, overwrite: false, make_sources: false }),
    {
        InsertRamp { location: None, from, to, count, overwrite: false, make_sources: false }
    }

    /// Sets the address from which the ramp's cells are placed.
    pub fn located_at(self, location: Address) -> (r: InsertRamp)
        ensures
            r == (InsertRamp { location: Some(location), ..self }),
    {
        InsertRamp { location: Some(location), ..self }
    }

    /// Sets whether occupied addresses may be overwritten by the ramp.
    pub fn overwrite(self, overwrite: bool) -> (r: InsertRamp)
        ensures
            r == (InsertRamp { overwrite, ..self }),
    {
        InsertRamp { overwrite, ..self }
    }

    /// Sets whether missing sources are created as placeholder colors
    /// instead of producing an error.
    pub fn make_sources(self, make_sources: bool) -> (r: InsertRamp)
        ensures
            r == (InsertRamp { make_sources, ..self }),
    {
        InsertRamp { make_sources, ..self }
    }

    /// Whether the sources exist or may be made.
    pub open spec fn sources_ready(self, m: Map<u32, ColorElement>) -> bool {
        self.make_sources || (occupied(m, self.from) && occupied(m, self.to))
    }

    /// The store after the ramp is placed into `pre`: each source keeps its
    /// element or holds a new placeholder, the targets that `find_targets`
    /// picks hold the ramp's steps, and every other address is unchanged.
    pub open spec fn ok_effect(self, pre: Map<u32, ColorElement>, post: Map<u32, ColorElement>) -> bool {
        &&& self.sources_ready(pre)
        &&& occupied(post, self.from)
        &&& occupied(post, self.to)
        &&& source_after(pre, post, self.from)
        &&& source_after(pre, post, self.to)
        &&& exists|s: Address, v: Seq<Address>|
            placed_at(pre, self.location, s) && targets_spec(
                pre,
                self.count,
                s,
                self.overwrite,
                seq![self.from, self.to],
                v,
            ) && ramp_placed(post, v, self.from, self.to, self.count as int) && forall|b: Address|
                !v.contains(b) && b != self.from && b != self.to ==> #[trigger] lookup(post, key_of(b))
                    == lookup(pre, key_of(b))
    }

    /// When placing the ramp into `pre` fails with `e`; the store is left as
    /// it was.
    pub open spec fn err_effect(self, pre: Map<u32, ColorElement>, post: Map<u32, ColorElement>, e: Error) -> bool {
        &&& post == pre
        &&& {
            ||| (e == Error::PaletteFull && self.location is None && full(pre))
            ||| (e == Error::InsufficientSpace && exists|s: Address|
                placed_at(pre, self.location, s) && too_few_targets(
                    pre,
                    self.count,
                    s,
                    self.overwrite,
                    seq![self.from, self.to],
                ))
            ||| (e == Error::MissingSource(self.from) && !self.make_sources && !occupied(pre, self.from))
            ||| (e == Error::MissingSource(self.to) && !self.make_sources && !occupied(pre, self.to))
        }
    }

    /// Places the ramp: picks `count` target addresses from the location (or
    /// the first free address) on, skipping the two sources, and occupied
    /// addresses unless overwriting; makes sure both sources exist; and puts
    /// at the `i`-th target a mixed cell interpolating from `from` to `to`
    /// by `(i + 1) / (count + 1)`.
    pub fn apply(self, data: &mut Data) -> (r: Result<HistoryEntry, Error>)
        ensures
            r is Err ==> (r == Err::<HistoryEntry, Error>(Error::PaletteFull) && self.location is None
                && full(old(data)@)) || (r == Err::<HistoryEntry, Error>(Error::InsufficientSpace)
                && exists|s: Address|
                placed_at(old(data)@, self.location, s) && too_few_targets(
                    old(data)@,
                    self.count,
                    s,
                    self.overwrite,
                    seq![self.from, self.to],
                )) || (r == Err::<HistoryEntry, Error>(Error::MissingSource(self.from))
                && !self.make_sources && !occupied(old(data)@, self.from)) || (r == Err::<
                HistoryEntry,
                Error,
            >(Error::MissingSource(self.to)) && !self.make_sources && !occupied(old(data)@, self.to)),
            forall|s: Address|
                placed_at(old(data)@, self.location, s) && !too_few_targets(
                    old(data)@,
                    self.count,
                    s,
                    self.overwrite,
                    seq![self.from, self.to],
                ) && self.sources_ready(old(data)@) ==> r is Ok,
            r matches Ok(h) ==> {
                &&& undoes(h.chain(), final(data)@, old(data)@)
                &&& h.info == OperationInfo::InsertRamp
                &&& occupied(final(data)@, self.from)
                &&& occupied(final(data)@, self.to)
                &&& exists|s: Address, v: Seq<Address>|
                    placed_at(old(data)@, self.location, s) && targets_spec(
                        old(data)@,
                        self.count,
                        s,
                        self.overwrite,
                        seq![self.from, self.to],
                        v,
                    ) && ramp_placed(final(data)@, v, self.from, self.to, self.count as int)
            },
            r is Ok ==> self.ok_effect(old(data)@, final(data)@),
            r matches Err(e) ==> self.err_effect(old(data)@, final(data)@, e),
    {
        let start = match self.location {
            Some(a) => a,
            None => data.first_free_address_after(Address::new(0, 0, 0))?,
        };
        assert(placed_at(data@, self.location, start));
        let exclude = vec![self.from, self.to];
        assert(exclude@ =~= seq![self.from, self.to]);
        let targets = match data.find_targets(self.count, start, self.overwrite, &exclude) {
            Ok(v) => v,
            Err(e) => {
                assert(too_few_targets(data@, self.count, start, self.overwrite, seq![self.from, self.to]));
                return Err(e);
            },
        };
        let ghost pre = data@;
        let mut undo = Undo::new(OperationInfo::InsertRamp);
        let make = self.make_sources;
        proof {
            assert(tracks(undo@, pre, data@)) by {
                lemma_key_of(self.from, self.from);
            }
        }
        get_source(data, self.from, make, &mut undo, Ghost(pre))?;
        assert(!saves(undo@, self.to) || occupied(data@, self.to)) by {
            if saves(undo@, self.to) {
                let j = choose|j: int| 0 <= j < undo@.len() && (#[trigger] undo@[j]).0 == self.to;
                assert(undo@[j].0 == self.from);
            }
        }
        let ghost mid = data@;
        match get_source(data, self.to, make, &mut undo, Ghost(pre)) {
            Ok(()) => {},
            Err(e) => {
                assert(!occupied(pre, self.to)) by {
                    if self.to != self.from {
                        lemma_key_of(self.to, self.from);
                    }
                }
                return Err(e);
            },
        }
        let ghost srcs = data@;
        proof {
            lemma_key_of(self.from, self.to);
            assert(source_after(pre, srcs, self.from));
            assert(source_after(pre, srcs, self.to));
            assert forall|b: Address| b != self.from && b != self.to implies #[trigger] lookup(srcs, key_of(b))
                == lookup(pre, key_of(b)) by {
                lemma_key_of(b, self.from);
                lemma_key_of(b, self.to);
            }
            assert(targets@.take(0) =~= Seq::<Address>::empty());
        }
        let base = undo.len();
        assert(forall|j: int| 0 <= j < base ==> (#[trigger] undo@[j]).0 == self.from || undo@[j].0 == self.to);
        assert(occupied(data@, self.from)) by {
            lemma_key_of(self.from, self.to);
        }
        let den = self.count as u64 + 1;
        let mut i: usize = 0;
        while i < targets.len()
            invariant
                targets@.len() == self.count,
                self.count <= 0x1_0000_0000,
                den == self.count + 1,
                0 <= i <= targets@.len(),
                targets_spec(pre, self.count, start, self.overwrite, seq![self.from, self.to], targets@),
                tracks(undo@, pre, data@),
                undo@.len() == base + i,
                forall|j: int| 0 <= j < base ==> (#[trigger] undo@[j]).0 == self.from || undo@[j].0 == self.to,
                forall|t: int| 0 <= t < i ==> (#[trigger] undo@[base + t]).0 == targets@[t],
                occupied(data@, self.from),
                occupied(data@, self.to),
                ramp_placed(data@, targets@.take(i as int), self.from, self.to, self.count as int),
                forall|b: Address|
                    !targets@.take(i as int).contains(b) ==> #[trigger] lookup(data@, key_of(b)) == lookup(
                        srcs,
                        key_of(b),
                    ),
            decreases targets@.len() - i,
        {
            let a = targets[i];
            assert(!saves(undo@, a)) by {
                assert(qualifies(pre, targets@[i as int], start, self.overwrite, seq![self.from, self.to]));
                assert(seq![self.from, self.to][0] == self.from);
                assert(seq![self.from, self.to][1] == self.to);
                if saves(undo@, a) {
                    let j = choose|j: int| 0 <= j < undo@.len() && (#[trigger] undo@[j]).0 == a;
                    if j >= base {
                        let t = j - base;
                        assert(undo@[base + t].0 == targets@[t]);
                        assert(addr_lt(targets@[t], targets@[i as int]));
                    }
                }
            }
            let sources = vec![self.from, self.to];
            assert(sources@ =~= seq![self.from, self.to]);
            let element = ColorElement::Mixed {
                mixer: Mixer::Ramp { num: i as u64 + 1, den },
                sources,
            };
            let ghost before = data@;
            let ghost undo_before = undo@;
            set_target(data, a, element, &mut undo, Ghost(pre));
            proof {
                lemma_key_of(a, self.from);
                lemma_key_of(a, self.to);
                let done = targets@.take(i + 1);
                assert forall|t: int| 0 <= t < done.len() implies data@.contains_key(key_of(#[trigger] done[t]))
                    && is_ramp_step(data@[key_of(done[t])], self.from, self.to, t + 1, self.count + 1) by {
                    if t < i {
                        assert(done[t] == targets@.take(i as int)[t]);
                        assert(addr_lt(targets@[t], targets@[i as int]));
                        lemma_key_of(targets@[t], a);
                    }
                }
                assert forall|t: int| 0 <= t < i + 1 implies (#[trigger] undo@[base + t]).0 == targets@[t] by {
                    if t < i {
                        assert(undo@[base + t] == undo_before[base + t]);
                    }
                }
                assert forall|j: int| 0 <= j < base implies (#[trigger] undo@[j]).0 == self.from || undo@[j].0 == self.to by {
                    assert(undo@[j] == undo_before[j]);
                }
                assert forall|b: Address| !done.contains(b) implies #[trigger] lookup(data@, key_of(b)) == lookup(
                    srcs,
                    key_of(b),
                ) by {
                    assert(done[i as int] == a);
                    if targets@.take(i as int).contains(b) {
                        let j = choose|j: int| 0 <= j < i && targets@.take(i as int)[j] == b;
                        assert(done[j] == b);
                    }
                    lemma_key_of(b, a);
                    assert(lookup(before, key_of(b)) == lookup(srcs, key_of(b)));
                }
            }
            i = i + 1;
        }
        proof {
            lemma_single_undoes(undo@, pre, data@);
            assert(targets@.take(self.count as int) =~= targets@);
            let ex = seq![self.from, self.to];
            assert(ex[0] == self.from && ex[1] == self.to);
            assert(!targets@.contains(self.from)) by {
                if targets@.contains(self.from) {
                    let j = choose|j: int| 0 <= j < targets@.len() && targets@[j] == self.from;
                    assert(qualifies(pre, targets@[j], start, self.overwrite, ex));
                }
            }
            assert(!targets@.contains(self.to)) by {
                if targets@.contains(self.to) {
                    let j = choose|j: int| 0 <= j < targets@.len() && targets@[j] == self.to;
                    assert(qualifies(pre, targets@[j], start, self.overwrite, ex));
                }
            }
            assert(lookup(data@, key_of(self.from)) == lookup(srcs, key_of(self.from)));
            assert(lookup(data@, key_of(self.to)) == lookup(srcs, key_of(self.to)));
        }
        let v = vec![undo];
        let h = HistoryEntry { info: OperationInfo::InsertRamp, undo: v };
        assert(h.chain() =~= seq![v@[0]@]);
        Ok(h)
    }
}

} // verus!

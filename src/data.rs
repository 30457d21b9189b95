//! The store of palette cells, keyed by address.
use crate::address::{Address, addr_le, addr_lt};
use crate::color::{Color, ColorElement, Mixer};
use crate::error::Error;
use std::collections::HashMap;
use vstd::prelude::*;
use vstd::std_specs::hash::group_hash_axioms;

verus! {

broadcast use group_hash_axioms;

/// The key under which the store keeps the cell at an address; keys follow
/// the order of addresses.
pub open spec fn key_of(a: Address) -> u32 {
    (a.page as int * 65536 + a.line as int * 256 + a.column as int) as u32
}

/// The address whose key is `k`.
pub open spec fn addr_of(k: u32) -> Address {
    Address { page: (k / 65536) as u16, line: ((k / 256) % 256) as u8, column: (k % 256) as u8 }
}

/// The cell contents at a key, or `None` where the key holds no cell.
pub open spec fn lookup(m: Map<u32, ColorElement>, k: u32) -> Option<ColorElement> {
    if m.contains_key(k) {
        Some(m[k])
    } else {
        None
    }
}

/// Keys and addresses are in one-to-one, order-preserving correspondence.
pub proof fn lemma_key_of(a: Address, b: Address)
    ensures
        addr_of(key_of(a)) == a,
        key_of(a) == key_of(b) <==> a == b,
        addr_le(a, b) <==> key_of(a) <= key_of(b),
{
    assert(addr_of(key_of(a)) == a) by (nonlinear_arith)
        requires key_of(a) == a.page as int * 65536 + a.line as int * 256 + a.column as int;
}

pub proof fn lemma_addr_of(k: u32)
    ensures
        key_of(addr_of(k)) == k,
{
    let a = addr_of(k);
    assert(key_of(a) == k) by (nonlinear_arith)
        requires a == addr_of(k), key_of(a) == a.page as int * 65536 + a.line as int * 256 + a.column as int;
}

/// Two stores that agree at every key are equal.
pub proof fn lemma_lookup_ext(m1: Map<u32, ColorElement>, m2: Map<u32, ColorElement>)
    requires
        forall|k: u32| #[trigger] lookup(m1, k) == lookup(m2, k),
    ensures
        m1 == m2,
{
    assert forall|k: u32| #[trigger] m1.dom().contains(k) <==> m2.dom().contains(k) by {
        assert(lookup(m1, k) == lookup(m2, k));
    }
    assert(m1.dom() =~= m2.dom());
    assert forall|k: u32| m1.contains_key(k) implies #[trigger] m1[k] == m2[k] by {
        assert(lookup(m1, k) == lookup(m2, k));
    }
    assert(m1 =~= m2);
}

fn key(a: Address) -> (k: u32)
    ensures
        k == key_of(a),
{
    a.page as u32 * 65536 + a.line as u32 * 256 + a.column as u32
}

fn address(k: u32) -> (a: Address)
    ensures
        a == addr_of(k),
{
    Address { page: (k / 65536) as u16, line: ((k / 256) % 256) as u8, column: (k % 256) as u8 }
}

/// The store of all cells of a palette.
pub struct Data {
    cells: HashMap<u32, ColorElement>,
}

impl View for Data {
    type V = Map<u32, ColorElement>;

    closed spec fn view(&self) -> Map<u32, ColorElement> {
        self.cells@
    }
}

/// Whether the store holds a cell at the address.
pub open spec fn occupied(m: Map<u32, ColorElement>, a: Address) -> bool {
    m.contains_key(key_of(a))
}

/// Whether `a` may receive a new element in an allocation from `start` that
/// skips `exclude`, and occupied cells unless `overwrite` is set.
pub open spec fn qualifies(
    m: Map<u32, ColorElement>,
    a: Address,
    start: Address,
    overwrite: bool,
    exclude: Seq<Address>,
) -> bool {
    addr_le(start, a) && !exclude.contains(a) && (overwrite || !occupied(m, a))
}

/// Whether the addresses are strictly ascending.
pub open spec fn ascending(s: Seq<Address>) -> bool {
    forall|i: int, j: int| 0 <= i < j < s.len() ==> addr_lt(#[trigger] s[i], #[trigger] s[j])
}

/// The key reached `d` steps after `k`, wrapping past the last address.
pub open spec fn wrapped_key(k: u32, d: int) -> u32 {
    ((k as int + d) % 0x1_0000_0000) as u32
}


/// The color that the cell at `a` resolves to, or why it resolves to none,
/// when the keys in `visiting` are being resolved further up the chain.
/// A chain longer than the number of cells must revisit some cell, and is
/// reported as cyclic.
pub open spec fn resolve_spec(m: Map<u32, ColorElement>, a: Address, visiting: Seq<u32>) -> Result<
    Color,
    Error,
>
    decreases m.dom().len() - visiting.len(),
{
    let k = key_of(a);
    if visiting.contains(k) {
        Err(Error::CyclicDependency(a))
    } else if !m.contains_key(k) {
        if visiting.len() == 0 {
            Err(Error::SlotEmpty(a))
        } else {
            Err(Error::MissingSource(a))
        }
    } else if visiting.len() >= m.dom().len() {
        Err(Error::CyclicDependency(a))
    } else {
        match m[k] {
            ColorElement::Color(c) => Ok(c),
            ColorElement::Mixed { mixer, sources } => {
                if !mixer.wf() || sources@.len() < mixer.order_spec() {
                    Err(Error::MalformedElement(a))
                } else {
                    let inner = visiting.push(k);
                    match resolve_spec(m, sources@[0], inner) {
                        Err(e) => Err(e),
                        Ok(c0) => match mixer {
                            Mixer::Watch => Ok(c0),
                            Mixer::Ramp { num, den } => match resolve_spec(m, sources@[1], inner) {
                                Err(e) => Err(e),
                                Ok(c1) => Ok(mixer.mix_spec(seq![c0, c1])),
                            },
                        },
                    }
                }
            },
        }
    }
}

/// Whether `a` is the first unoccupied address met when walking from
/// `start` upward, wrapping past the last address.
pub open spec fn first_free_from(m: Map<u32, ColorElement>, start: Address, a: Address) -> bool {
    &&& !occupied(m, a)
    &&& exists|d: int|
        0 <= d < 0x1_0000_0000 && key_of(a) == wrapped_key(key_of(start), d) && forall|j: int|
            0 <= j < d ==> m.contains_key(#[trigger] wrapped_key(key_of(start), j))
}

/// Whether every address holds a cell.
pub open spec fn full(m: Map<u32, ColorElement>) -> bool {
    forall|k: u32| m.contains_key(k)
}

/// Whether `v` is what `find_targets` returns: the first `count` addresses
/// from `start` that qualify.
pub open spec fn targets_spec(
    m: Map<u32, ColorElement>,
    count: usize,
    start: Address,
    overwrite: bool,
    exclude: Seq<Address>,
    v: Seq<Address>,
) -> bool {
    &&& v.len() == count
    &&& ascending(v)
    &&& forall|i: int| 0 <= i < v.len() ==> qualifies(m, #[trigger] v[i], start, overwrite, exclude)
    &&& forall|a: Address|
        qualifies(m, a, start, overwrite, exclude) && count > 0 && addr_le(a, v[count - 1])
            ==> v.contains(a)
}

/// Whether fewer than `count` addresses from `start` qualify.
pub open spec fn too_few_targets(
    m: Map<u32, ColorElement>,
    count: usize,
    start: Address,
    overwrite: bool,
    exclude: Seq<Address>,
) -> bool {
    exists|v: Seq<Address>|
        v.len() < count && forall|a: Address| qualifies(m, a, start, overwrite, exclude) ==> v.contains(a)
}


/// A mixed cell that lists itself among the sources its mixer reads never
/// resolves to a color: resolution fails, with `CyclicDependency` at the
/// cell itself unless an earlier source fails first, and always with
/// `CyclicDependency` where the cell is its own first source.
pub proof fn lemma_self_reference_is_cyclic(m: Map<u32, ColorElement>, a: Address)
    requires
        m.dom().finite(),
        m.contains_key(key_of(a)),
        m[key_of(a)] matches ColorElement::Mixed { mixer, sources } && mixer.wf() && sources@.len()
            >= mixer.order_spec() && exists|i: int| 0 <= i < mixer.order_spec() && sources@[i] == a,
    ensures
        resolve_spec(m, a, Seq::empty()) is Err,
        m[key_of(a)] matches ColorElement::Mixed { mixer, sources } && sources@[0] == a ==> resolve_spec(
            m,
            a,
            Seq::empty(),
        ) == Err::<Color, Error>(Error::CyclicDependency(a)),
        m[key_of(a)] matches ColorElement::Mixed { mixer, sources } && resolve_spec(
            m,
            sources@[0],
            Seq::empty().push(key_of(a)),
        ) is Ok ==> resolve_spec(m, a, Seq::empty()) == Err::<Color, Error>(Error::CyclicDependency(a)),
{
    let k = key_of(a);
    vstd::set_lib::lemma_set_empty_equivalency_len(m.dom());
    assert(m.dom().len() > 0) by {
        if m.dom().len() == 0 {
            assert(m.dom().contains(k));
        }
    }
    let inner = Seq::<u32>::empty().push(k);
    assert(inner[0] == k);
    assert(inner.contains(k));
    assert(resolve_spec(m, a, inner) == Err::<Color, Error>(Error::CyclicDependency(a)));
    assert(!Seq::<u32>::empty().contains(k));
    assert(Seq::<u32>::empty().len() < m.dom().len());
}

fn contains_key_in(v: &Vec<u32>, k: u32) -> (r: bool)
    ensures
        r == v@.contains(k),
{
    let mut i: usize = 0;
    while i < v.len()
        invariant
            0 <= i <= v@.len(),
            forall|j: int| 0 <= j < i ==> v@[j] != k,
        decreases v@.len() - i,
    {
        if v[i] == k {
            return true;
        }
        i = i + 1;
    }
    false
}

fn contains_address(v: &Vec<Address>, a: Address) -> (r: bool)
    ensures
        r == v@.contains(a),
{
    let mut i: usize = 0;
    while i < v.len()
        invariant
            0 <= i <= v@.len(),
            forall|j: int| 0 <= j < i ==> v@[j] != a,
        decreases v@.len() - i,
    {
        if v[i] == a {
            return true;
        }
        i = i + 1;
    }
    false
}

impl Data {
    /// The store holds finitely many cells.
    pub proof fn lemma_finite(&self)
        ensures
            self@.dom().finite(),
    {
    }

    /// Creates an empty store.
    pub fn new() -> (d: Data)
        ensures
            d@ == Map::<u32, ColorElement>::empty(),
    {
        Data { cells: HashMap::new() }
    }

    /// Returns the number of occupied cells.
    pub fn len(&self) -> (r: usize)
        ensures
            r == self@.len(),
    {
        self.cells.len()
    }

    /// Returns the element of the cell at the address, if there is one.
    pub fn cell(&self, a: Address) -> (r: Option<&ColorElement>)
        ensures
            r matches Some(e) ==> occupied(self@, a) && *e == self@[key_of(a)],
            r is None ==> !occupied(self@, a),
    {
        let k = key(a);
        self.cells.get(&k)
    }

    /// Resolves the color of the cell at the address by walking its sources
    /// depth first. A cell met again while it is being resolved gives
    /// `CyclicDependency`.
    pub fn resolve(&self, a: Address) -> (r: Result<Color, Error>)
        ensures
            r == resolve_spec(self@, a, Seq::empty()),
    {
        let mut visiting: Vec<u32> = Vec::new();
        self.resolve_from(a, &mut visiting)
    }

    fn resolve_from(&self, a: Address, visiting: &mut Vec<u32>) -> (r: Result<Color, Error>)
        ensures
            r == resolve_spec(self@, a, old(visiting)@),
            final(visiting)@ == old(visiting)@,
        decreases self@.dom().len() - old(visiting)@.len(),
    {
        let k = key(a);
        if contains_key_in(visiting, k) {
            return Err(Error::CyclicDependency(a));
        }
        let found = self.cells.get(&k);
        match found {
            None => {
                if visiting.len() == 0 {
                    Err(Error::SlotEmpty(a))
                } else {
                    Err(Error::MissingSource(a))
                }
            },
            Some(e) => {
                if visiting.len() >= self.cells.len() {
                    return Err(Error::CyclicDependency(a));
                }
                match e {
                    ColorElement::Color(c) => Ok(*c),
                    ColorElement::Mixed { mixer, sources } => {
                        let wf = match *mixer {
                            Mixer::Ramp { num, den } => 0 < den && num <= den,
                            Mixer::Watch => true,
                        };
                        if !wf || sources.len() < mixer.order() {
                            return Err(Error::MalformedElement(a));
                        }
                        let ghost before = visiting@;
                        visiting.push(k);
                        let c0 = self.resolve_from(sources[0], visiting);
                        let c0 = match c0 {
                            Err(err) => {
                                visiting.pop();
                                assert(visiting@ =~= before);
                                return Err(err);
                            },
                            Ok(c) => c,
                        };
                        let res = match *mixer {
                            Mixer::Watch => Ok(c0),
                            Mixer::Ramp { .. } => {
                                match self.resolve_from(sources[1], visiting) {
                                    Err(err) => Err(err),
                                    Ok(c1) => {
                                        let colors = vec![c0, c1];
                                        Ok(mixer.mix(&colors))
                                    },
                                }
                            },
                        };
                        visiting.pop();
                        assert(visiting@ =~= before);
                        res
                    },
                }
            },
        }
    }

    /// Creates a cell holding `element` at the address.
    pub fn create_cell(&mut self, a: Address, element: ColorElement) -> (r: Result<(), Error>)
        ensures
            occupied(old(self)@, a) ==> r == Err::<(), Error>(Error::SlotOccupied(a))
                && final(self)@ == old(self)@,
            !occupied(old(self)@, a) ==> r is Ok && final(self)@ == old(self)@.insert(
                key_of(a),
                element,
            ),
    {
        let k = key(a);
        if self.cells.contains_key(&k) {
            return Err(Error::SlotOccupied(a));
        }
        self.cells.insert(k, element);
        Ok(())
    }

    /// Puts `element` into the cell at the address, creating the cell if
    /// needed, and returns what the address held before.
    pub fn set_cell(&mut self, a: Address, element: ColorElement) -> (r: Option<ColorElement>)
        ensures
            r == lookup(old(self)@, key_of(a)),
            final(self)@ == old(self)@.insert(key_of(a), element),
    {
        let k = key(a);
        self.cells.insert(k, element)
    }

    /// Removes the cell at the address and returns its element.
    pub fn remove_cell(&mut self, a: Address) -> (r: Result<ColorElement, Error>)
        ensures
            !occupied(old(self)@, a) ==> r == Err::<ColorElement, Error>(Error::SlotEmpty(a))
                && final(self)@ == old(self)@,
            occupied(old(self)@, a) ==> r == Ok::<ColorElement, Error>(old(self)@[key_of(a)])
                && final(self)@ == old(self)@.remove(key_of(a)),
    {
        let k = key(a);
        match self.cells.remove(&k) {
            Some(e) => Ok(e),
            None => Err(Error::SlotEmpty(a)),
        }
    }

    /// Returns the first unoccupied address at or after `start`, wrapping
    /// past the last address back to the first, or `PaletteFull` when every
    /// address is occupied.
    pub fn first_free_address_after(&self, start: Address) -> (r: Result<Address, Error>)
        ensures
            r matches Ok(a) ==> first_free_from(self@, start, a),
            r is Err ==> r == Err::<Address, Error>(Error::PaletteFull) && full(self@),
    {
        let s = key(start);
        let mut k: u32 = s;
        let mut d: u64 = 0;
        while d < 0x1_0000_0000
            invariant
                d <= 0x1_0000_0000,
                k == wrapped_key(s, d as int),
                s == key_of(start),
                forall|j: int| 0 <= j < d ==> self@.contains_key(#[trigger] wrapped_key(s, j)),
            decreases 0x1_0000_0000 - d,
        {
            if !self.cells.contains_key(&k) {
                let a = address(k);
                proof {
                    lemma_addr_of(k);
                }
                return Ok(a);
            }
            k = k.wrapping_add(1);
            d = d + 1;
        }
        assert forall|k2: u32| self@.contains_key(k2) by {
            let j: int = if k2 >= s { k2 - s } else { k2 + 0x1_0000_0000 - s };
            assert(wrapped_key(s, j) == k2);
        }
        Err(Error::PaletteFull)
    }

    /// Returns `count` addresses, ascending from `start`, that are not in
    /// `exclude` and, unless `overwrite` is set, not occupied: the first
    /// `count` such addresses. Fails with `InsufficientSpace` when fewer
    /// such addresses exist.
    pub fn find_targets(
        &self,
        count: usize,
        start: Address,
        overwrite: bool,
        exclude: &Vec<Address>,
    ) -> (r: Result<Vec<Address>, Error>)
        ensures
            r matches Ok(v) ==> targets_spec(self@, count, start, overwrite, exclude@, v@) && count
                <= 0x1_0000_0000,
            r is Err ==> r == Err::<Vec<Address>, Error>(Error::InsufficientSpace) && too_few_targets(
                self@,
                count,
                start,
                overwrite,
                exclude@,
            ),
    {
        let mut found: Vec<Address> = Vec::new();
        if count == 0 {
            return Ok(found);
        }
        let s = key(start);
        let mut k: u64 = s as u64;
        while k < 0x1_0000_0000 && found.len() < count
            invariant
                s == key_of(start),
                s <= k <= 0x1_0000_0000,
                found@.len() <= count,
                found@.len() <= k - s,
                count > 0,
                ascending(found@),
                forall|i: int|
                    0 <= i < found@.len() ==> qualifies(self@, #[trigger] found@[i], start, overwrite, exclude@)
                        && key_of(found@[i]) < k,
                forall|a: Address|
                    qualifies(self@, a, start, overwrite, exclude@) && key_of(a) < k ==> found@.contains(a),
            decreases 0x1_0000_0000 - k,
        {
            let a = address(k as u32);
            proof {
                lemma_addr_of(k as u32);
                lemma_key_of(start, a);
            }
            let free = !self.cells.contains_key(&(k as u32));
            if (overwrite || free) && !contains_address(exclude, a) {
                proof {
                    assert forall|i: int| 0 <= i < found@.len() implies addr_lt(
                        #[trigger] found@[i],
                        a,
                    ) by {
                        lemma_key_of(found@[i], a);
                    }
                }
                let ghost before = found@;
                found.push(a);
                proof {
                    assert forall|b: Address|
                        qualifies(self@, b, start, overwrite, exclude@) && key_of(b) < k + 1 implies found@.contains(b) by {
                        if key_of(b) == k {
                            lemma_key_of(a, b);
                            assert(found@[found@.len() - 1] == b);
                        } else {
                            assert(before.contains(b));
                            let i = choose|i: int| 0 <= i < before.len() && before[i] == b;
                            assert(found@[i] == b);
                        }
                    }
                }
            } else {
                proof {
                    assert forall|b: Address|
                        qualifies(self@, b, start, overwrite, exclude@) && key_of(b) < k + 1 implies found@.contains(b) by {
                        if key_of(b) == k {
                            lemma_key_of(a, b);
                        }
                    }
                }
            }
            k = k + 1;
        }
        if found.len() < count {
            assert forall|a: Address| qualifies(self@, a, start, overwrite, exclude@) implies found@.contains(a) by {
                lemma_key_of(a, a);
            }
            return Err(Error::InsufficientSpace);
        }
        proof {
            assert forall|a: Address|
                qualifies(self@, a, start, overwrite, exclude@) && count > 0 && addr_le(a, found@[count - 1]) implies found@.contains(a) by {
                lemma_key_of(a, found@[count - 1]);
            }
        }
        Ok(found)
    }
}

} // verus!

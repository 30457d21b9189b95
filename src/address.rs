//! Page:line:column addressing of palette cells.
use vstd::prelude::*;

verus! {

/// A single cell location: page, line and column.
#[derive(Debug, Clone, Copy, PartialEq, Eq, Structural, Hash, PartialOrd, Ord, Default)]
pub struct Address {
    /// The page of the address.
    pub page: u16,
    /// The line of the address.
    pub line: u8,
    /// The column of the address.
    pub column: u8,
}

/// The position of an address within a space of `lines` lines of `columns`
/// columns per page.
pub open spec fn bounded_index(a: Address, lines: int, columns: int) -> int {
    (a.page as int * lines + a.line as int) * columns + a.column as int
}

/// Whether an address lies inside the given bounds.
pub open spec fn within(a: Address, pages: int, lines: int, columns: int) -> bool {
    a.page < pages && a.line < lines && a.column < columns
}

/// The address that follows `a` when columns, lines and pages wrap at the
/// given bounds.
pub open spec fn next_spec(a: Address, pages: u16, lines: u8, columns: u8) -> Address {
    let c = ((a.column + 1) % 256) as u8;
    if !wraps_at(c, columns) {
        Address { column: c, ..a }
    } else {
        let l = ((a.line + 1) % 256) as u8;
        if !wraps_at(l, lines) {
            Address { line: l, column: 0, ..a }
        } else {
            let p = ((a.page + 1) % 65536) as u16;
            Address { page: if p >= pages { 0 } else { p }, line: 0, column: 0 }
        }
    }
}

/// Whether a field that has just been advanced to `v` wraps at `bound`: at
/// each multiple of a nonzero bound, and for a zero bound only where the
/// field itself overflowed to zero.
pub open spec fn wraps_at(v: u8, bound: u8) -> bool {
    if bound == 0 {
        v == 0
    } else {
        v % bound == 0
    }
}

/// The address reached from `a` after `n` wrapped steps.
pub open spec fn steps_from(a: Address, n: nat, pages: u16, lines: u8, columns: u8) -> Address
    decreases n,
{
    if n == 0 {
        a
    } else {
        next_spec(steps_from(a, (n - 1) as nat, pages, lines, columns), pages, lines, columns)
    }
}


proof fn lemma_index_bounds(a: Address, pages: int, lines: int, columns: int)
    requires
        within(a, pages, lines, columns),
        lines > 0,
        columns > 0,
    ensures
        0 <= bounded_index(a, lines, columns) < pages * lines * columns,
{
    let p = a.page as int;
    let l = a.line as int;
    let c = a.column as int;
    assert(0 <= p * lines) by (nonlinear_arith)
        requires p >= 0, lines > 0;
    assert(0 <= (p * lines + l) * columns) by (nonlinear_arith)
        requires p * lines + l >= 0, columns > 0;
    assert(p * lines + l + 1 <= pages * lines) by (nonlinear_arith)
        requires p + 1 <= pages, l + 1 <= lines, lines > 0;
    assert((p * lines + l) * columns + c < pages * lines * columns) by (nonlinear_arith)
        requires p * lines + l + 1 <= pages * lines, c < columns, columns > 0;
}

proof fn lemma_next_step(a: Address, pages: u16, lines: u8, columns: u8)
    requires
        within(a, pages as int, lines as int, columns as int),
        lines > 0,
        columns > 0,
    ensures
        within(next_spec(a, pages, lines, columns), pages as int, lines as int, columns as int),
        bounded_index(next_spec(a, pages, lines, columns), lines as int, columns as int) == (
        bounded_index(a, lines as int, columns as int) + 1) % (pages as int * lines as int
            * columns as int),
{
    let n = next_spec(a, pages, lines, columns);
    let pl = pages as int;
    let ll = lines as int;
    let cc = columns as int;
    let big = pl * ll * cc;
    let p = a.page as int;
    let l = a.line as int;
    let c = a.column as int;
    lemma_index_bounds(a, pl, ll, cc);
    let i = bounded_index(a, ll, cc);
    assert((c + 1) % 256 == c + 1);
    assert(((c + 1) as u8) % columns == 0 <==> c + 1 == cc) by {
        vstd::arithmetic::div_mod::lemma_mod_self_0(cc);
        if c + 1 < cc {
            vstd::arithmetic::div_mod::lemma_small_mod((c + 1) as nat, cc as nat);
        }
    }
    if c + 1 < cc {
        assert(n == Address { column: (c + 1) as u8, ..a });
        assert(bounded_index(n, ll, cc) == i + 1);
        assert(p * ll + l + 1 <= pl * ll) by (nonlinear_arith)
            requires p + 1 <= pl, l + 1 <= ll, ll > 0;
        let x = p * ll + l;
        let y = pl * ll;
        assert((x + 1) * cc <= y * cc) by (nonlinear_arith)
            requires x + 1 <= y, cc > 0;
        assert((x + 1) * cc == x * cc + cc) by (nonlinear_arith);
        assert(y * cc == big) by (nonlinear_arith)
            requires y == pl * ll, big == pl * ll * cc;
        assert(i + 1 < big);
        vstd::arithmetic::div_mod::lemma_small_mod((i + 1) as nat, big as nat);
        assert(bounded_index(n, ll, cc) == (i + 1) % big);
    } else {
        assert((l + 1) % 256 == l + 1);
        assert(((l + 1) as u8) % lines == 0 <==> l + 1 == ll) by {
            vstd::arithmetic::div_mod::lemma_mod_self_0(ll);
            if l + 1 < ll {
                vstd::arithmetic::div_mod::lemma_small_mod((l + 1) as nat, ll as nat);
            }
        }
        if l + 1 < ll {
            assert(bounded_index(n, ll, cc) == (p * ll + l + 1) * cc);
            assert((p * ll + l + 1) * cc == (p * ll + l) * cc + cc) by (nonlinear_arith);
            lemma_index_bounds(n, pl, ll, cc);
            vstd::arithmetic::div_mod::lemma_small_mod((i + 1) as nat, big as nat);
            assert(bounded_index(n, ll, cc) == (i + 1) % big);
        } else {
            assert((p + 1) % 65536 == p + 1);
            assert((p * ll + l + 1) * cc == (p * ll + l) * cc + cc) by (nonlinear_arith);
            assert(p * ll + l + 1 == (p + 1) * ll) by (nonlinear_arith)
                requires l + 1 == ll;
            if p + 1 < pl {
                assert(bounded_index(n, ll, cc) == ((p + 1) * ll) * cc);
                assert(bounded_index(n, ll, cc) == i + 1);
                lemma_index_bounds(n, pl, ll, cc);
                vstd::arithmetic::div_mod::lemma_small_mod((i + 1) as nat, big as nat);
                assert(bounded_index(n, ll, cc) == (i + 1) % big);
            } else {
                assert(i + 1 == big) by (nonlinear_arith)
                    requires i + 1 == (p + 1) * ll * cc, p + 1 == pl, big == pl * ll * cc;
                vstd::arithmetic::div_mod::lemma_mod_self_0(big);
                assert(n == Address::origin());
                assert(bounded_index(n, ll, cc) == 0) by (nonlinear_arith)
                    requires n == Address::origin();
                assert(bounded_index(n, ll, cc) == (i + 1) % big);
            }
        }
    }
}

proof fn lemma_steps_index(pages: u16, lines: u8, columns: u8, n: nat)
    requires
        pages > 0,
        lines > 0,
        columns > 0,
    ensures
        within(steps_from(Address::origin(), n, pages, lines, columns), pages as int,
            lines as int, columns as int),
        bounded_index(steps_from(Address::origin(), n, pages, lines, columns), lines as int,
            columns as int) == (n as int) % (pages as int * lines as int * columns as int),
    decreases n,
{
    let big = pages as int * lines as int * columns as int;
    assert(big > 0) by (nonlinear_arith)
        requires pages > 0, lines > 0, columns > 0, big == pages as int * lines as int * columns as int;
    if n == 0 {
        assert(bounded_index(Address::origin(), lines as int, columns as int) == 0) by (nonlinear_arith);
        vstd::arithmetic::div_mod::lemma_small_mod(0, big as nat);
    } else {
        let m = (n - 1) as nat;
        lemma_steps_index(pages, lines, columns, m);
        lemma_next_step(steps_from(Address::origin(), m, pages, lines, columns), pages, lines, columns);
        vstd::arithmetic::div_mod::lemma_add_mod_noop(m as int, 1, big);
        if big == 1 {
            assert(n as int % 1 == 0);
            assert(m as int % 1 == 0);
            assert(1int % 1 == 0);
        } else {
            vstd::arithmetic::div_mod::lemma_small_mod(1, big as nat);
        }
    }
}

/// Stepping with `wrapped_next` from the origin, within bounds of `pages`
/// pages of `lines` lines of `columns` columns, comes back to the origin
/// after exactly `pages * lines * columns` steps.
pub proof fn lemma_wrapped_full_cycle(pages: u16, lines: u8, columns: u8)
    requires
        lines > 0,
        columns > 0,
    ensures
        steps_from(Address::origin(), (pages as int * lines as int * columns as int) as nat,
            pages, lines, columns) == Address::origin(),
{
    let big = pages as int * lines as int * columns as int;
    assert(big >= 0) by (nonlinear_arith)
        requires lines > 0, columns > 0, big == pages as int * lines as int * columns as int;
    if pages > 0 {
        assert(big > 0) by (nonlinear_arith)
            requires pages > 0, lines > 0, columns > 0,
                big == pages as int * lines as int * columns as int;
        lemma_steps_index(pages, lines, columns, big as nat);
        vstd::arithmetic::div_mod::lemma_mod_self_0(big);
        let r = steps_from(Address::origin(), big as nat, pages, lines, columns);
        let p = r.page as int;
        let l = r.line as int;
        let c = r.column as int;
        assert(p * lines as int >= 0) by (nonlinear_arith)
            requires p >= 0, lines > 0;
        assert(p * lines as int + l == 0) by (nonlinear_arith)
            requires (p * lines as int + l) * columns as int + c == 0, p * lines as int + l >= 0,
                c >= 0, columns > 0;
        assert(p == 0) by (nonlinear_arith)
            requires p * lines as int + l == 0, p >= 0, l >= 0, lines > 0;
    } else {
        assert(big == 0) by (nonlinear_arith)
            requires pages == 0, big == pages as int * lines as int * columns as int;
    }
}

impl Address {
    /// The address with all fields zero.
    pub open spec fn origin() -> Address {
        Address { page: 0, line: 0, column: 0 }
    }

    /// Creates a new address.
    pub fn new(page: u16, line: u8, column: u8) -> (r: Address)
        ensures
            r.page == page,
            r.line == line,
            r.column == column,
    {
        Address { page, line, column }
    }

    /// Returns the next address, wrapping the column into the line and the
    /// line into the page at the given bounds, and the page back to zero when
    /// it reaches `pages`. A zero bound for lines or columns wraps that field
    /// only where it overflows.
    pub fn wrapped_next(&self, pages: u16, lines: u8, columns: u8) -> (r: Address)
        ensures
            r == next_spec(*self, pages, lines, columns),
    {
        let mut next = Address::new(self.page, self.line, self.column.wrapping_add(1));
        let column_wraps = if columns == 0 {
            next.column == 0
        } else {
            next.column % columns == 0
        };
        if column_wraps {
            next.column = 0;
            next.line = next.line.wrapping_add(1);
            let line_wraps = if lines == 0 {
                next.line == 0
            } else {
                next.line % lines == 0
            };
            if line_wraps {
                next.line = 0;
                next.page = next.page.wrapping_add(1);
                if next.page >= pages {
                    next.page = 0;
                }
            }
        }
        next
    }

    /// Returns the page group containing the address.
    pub fn page_group(&self) -> (r: Group)
        ensures
            r == (Group::Page { page: self.page }),
    {
        Group::Page { page: self.page }
    }

    /// Returns the line group containing the address.
    pub fn line_group(&self) -> (r: Group)
        ensures
            r == (Group::Line { page: self.page, line: self.line }),
    {
        Group::Line { page: self.page, line: self.line }
    }

    /// Returns the selection holding this address alone.
    pub fn to_selection(&self) -> (r: Selection)
        ensures
            r@ == seq![Interval::closed_spec(*self, *self)],
            forall|b: Address| selection_contains(r@, b) <==> b == *self,
    {
        let r = vec![Interval::closed(*self, *self)];
        assert forall|b: Address| selection_contains(r@, b) <==> b == *self by {
            if selection_contains(r@, b) {
                let i = choose|i: int| 0 <= i < r@.len() && r@[i].contains_spec(b);
                assert(i == 0);
            }
            if b == *self {
                assert(r@[0].contains_spec(b));
            }
        }
        r
    }
}

/// Lexicographic order of addresses: page, then line, then column.
pub open spec fn addr_le(a: Address, b: Address) -> bool {
    a.page < b.page || (a.page == b.page && (a.line < b.line || (a.line == b.line
        && a.column <= b.column)))
}

/// Strict lexicographic order of addresses.
pub open spec fn addr_lt(a: Address, b: Address) -> bool {
    addr_le(a, b) && a != b
}

/// An interval of addresses, closed at its lower end and closed or open at
/// its upper end.
#[derive(Debug, Clone, Copy, PartialEq, Eq, Structural)]
pub struct Interval {
    /// The least address of the interval.
    pub lower: Address,
    /// The upper end of the interval.
    pub upper: Address,
    /// Whether the upper end is excluded.
    pub right_open: bool,
}

/// An ordered sequence of intervals.
pub type Selection = Vec<Interval>;

/// Whether some interval of the selection holds the address.
pub open spec fn selection_contains(s: Seq<Interval>, a: Address) -> bool {
    exists|i: int| 0 <= i < s.len() && #[trigger] s[i].contains_spec(a)
}

impl Interval {
    pub open spec fn closed_spec(lower: Address, upper: Address) -> Interval {
        Interval { lower, upper, right_open: false }
    }

    pub open spec fn right_open_spec(lower: Address, upper: Address) -> Interval {
        Interval { lower, upper, right_open: true }
    }

    pub open spec fn contains_spec(self, a: Address) -> bool {
        addr_le(self.lower, a) && if self.right_open {
            addr_lt(a, self.upper)
        } else {
            addr_le(a, self.upper)
        }
    }

    /// The interval of the addresses from `lower` to `upper`, both included.
    pub fn closed(lower: Address, upper: Address) -> (r: Interval)
        ensures
            r == Interval::closed_spec(lower, upper),
    {
        Interval { lower, upper, right_open: false }
    }

    /// The interval of the addresses from `lower` included to `upper`
    /// excluded.
    pub fn right_open(lower: Address, upper: Address) -> (r: Interval)
        ensures
            r == Interval::right_open_spec(lower, upper),
    {
        Interval { lower, upper, right_open: true }
    }

    /// Returns whether the address lies in the interval.
    pub fn contains(&self, a: Address) -> (r: bool)
        ensures
            r == self.contains_spec(a),
    {
        let above = self.lower.page < a.page || (self.lower.page == a.page && (self.lower.line
            < a.line || (self.lower.line == a.line && self.lower.column <= a.column)));
        let below = a.page < self.upper.page || (a.page == self.upper.page && (a.line
            < self.upper.line || (a.line == self.upper.line && a.column <= self.upper.column)));
        above && below && !(self.right_open && a == self.upper)
    }
}

/// A line, a page, or the whole palette.
#[derive(Debug, Clone, Copy, PartialEq, Eq, Structural, Hash, PartialOrd, Ord)]
pub enum Group {
    /// A single line of a page.
    Line {
        /// The page of the group.
        page: u16,
        /// The line of the group.
        line: u8,
    },
    /// A single page.
    Page {
        /// The page of the group.
        page: u16,
    },
    /// The whole palette.
    All,
}

impl Group {
    /// Membership of an address in the group.
    pub open spec fn contains_spec(self, a: Address) -> bool {
        match self {
            Group::Line { page, line } => a.page == page && a.line == line,
            Group::Page { page } => a.page == page,
            Group::All => true,
        }
    }

    /// The interval covering the group: half-open from the group's base
    /// address to the next group's base address, or closed at the group's
    /// last address where no next group exists.
    pub open spec fn interval_spec(self) -> Interval {
        match self {
            Group::Line { page, line } => if line < 255 {
                Interval::right_open_spec(
                    Address { page, line, column: 0 },
                    Address { page, line: (line + 1) as u8, column: 0 },
                )
            } else if page < 65535 {
                Interval::right_open_spec(
                    Address { page, line, column: 0 },
                    Address { page: (page + 1) as u16, line: 0, column: 0 },
                )
            } else {
                Interval::closed_spec(Address { page, line, column: 0 }, Address { page, line, column: 255 })
            },
            Group::Page { page } => if page < 65535 {
                Interval::right_open_spec(
                    Address { page, line: 0, column: 0 },
                    Address { page: (page + 1) as u16, line: 0, column: 0 },
                )
            } else {
                Interval::closed_spec(Address { page, line: 0, column: 0 }, Address { page, line: 255, column: 255 })
            },
            Group::All => Interval::closed_spec(
                Address { page: 0, line: 0, column: 0 },
                Address { page: 65535, line: 255, column: 255 },
            ),
        }
    }

    /// Returns the first address located within the group.
    pub fn base_address(&self) -> (r: Address)
        ensures
            self.contains_spec(r),
            forall|a: Address| self.contains_spec(a) ==> addr_le(r, a),
    {
        match *self {
            Group::Line { page, line } => Address::new(page, line, 0),
            Group::Page { page } => Address::new(page, 0, 0),
            Group::All => Address::new(0, 0, 0),
        }
    }

    /// Returns whether the address is contained within the group.
    pub fn contains(&self, address: Address) -> (r: bool)
        ensures
            r == self.contains_spec(address),
    {
        match *self {
            Group::Line { page, line } => address.page == page && address.line == line,
            Group::Page { page } => address.page == page,
            Group::All => true,
        }
    }

    /// Returns a selection covering exactly the group: a half-open interval
    /// from the group's base address to the next group's base address, or a
    /// closed one where no next group exists.
    pub fn to_selection(&self) -> (r: Selection)
        ensures
            r@ == seq![self.interval_spec()],
            forall|a: Address| selection_contains(r@, a) <==> self.contains_spec(a),
    {
        let iv = match *self {
            Group::Line { page, line } => {
                if line < 255 {
                    Interval::right_open(Address::new(page, line, 0), Address::new(page, line + 1, 0))
                } else if page < 65535 {
                    Interval::right_open(Address::new(page, line, 0), Address::new(page + 1, 0, 0))
                } else {
                    Interval::closed(Address::new(page, line, 0), Address::new(page, line, 255))
                }
            },
            Group::Page { page } => {
                if page < 65535 {
                    Interval::right_open(Address::new(page, 0, 0), Address::new(page + 1, 0, 0))
                } else {
                    Interval::closed(Address::new(page, 0, 0), Address::new(page, 255, 255))
                }
            },
            Group::All => Interval::closed(Address::new(0, 0, 0), Address::new(65535, 255, 255)),
        };
        let r = vec![iv];
        assert(r@ =~= seq![self.interval_spec()]);
        assert forall|a: Address| selection_contains(r@, a) <==> self.contains_spec(a) by {
            if selection_contains(r@, a) {
                let i = choose|i: int| 0 <= i < r@.len() && r@[i].contains_spec(a);
                assert(i == 0);
            }
            if self.contains_spec(a) {
                assert(r@[0].contains_spec(a));
            }
        }
        r
    }
}

} // verus!

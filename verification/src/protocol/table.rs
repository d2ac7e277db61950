//! A table keyed by endpoint address.
//!
//! The rows are kept in a vector in strictly ascending address order, so a
//! walk over the table visits the endpoints in the same order on every
//! replica.
use vstd::prelude::*;
use crate::protocol::endpoint::EndpointAddr;

verus! {

/// Rows are in strictly ascending address order; in particular no address
/// occurs twice.
pub open spec fn strictly_ascending<V>(rows: Seq<(EndpointAddr, V)>) -> bool {
    forall|i: int, j: int| 0 <= i < j < rows.len() ==> rows[i].0.bits < rows[j].0.bits
}

/// True when some row of `rows` is keyed by `addr`.
pub open spec fn has_row<V>(rows: Seq<(EndpointAddr, V)>, addr: EndpointAddr) -> bool {
    exists|i: int| 0 <= i < rows.len() && (#[trigger] rows[i]).0 == addr
}

/// Index of a row keyed by `addr`.
pub open spec fn row_index<V>(rows: Seq<(EndpointAddr, V)>, addr: EndpointAddr) -> int {
    choose|i: int| 0 <= i < rows.len() && (#[trigger] rows[i]).0 == addr
}

/// The map that a sequence of rows stands for.
pub open spec fn rows_to_map<V>(rows: Seq<(EndpointAddr, V)>) -> Map<EndpointAddr, V> {
    Map::new(|addr: EndpointAddr| has_row(rows, addr), |addr: EndpointAddr| rows[row_index(rows,
        addr)].1)
}

/// Each row of an ascending sequence is an entry of its map.
pub proof fn lemma_row_is_entry<V>(rows: Seq<(EndpointAddr, V)>, i: int)
    requires
        strictly_ascending(rows),
        0 <= i < rows.len(),
    ensures
        rows_to_map(rows).contains_key(rows[i].0),
        rows_to_map(rows)[rows[i].0] == rows[i].1,
        row_index(rows, rows[i].0) == i,
{
    let addr = rows[i].0;
    assert(has_row(rows, addr));
    let j = row_index(rows, addr);
    assert(0 <= j < rows.len() && rows[j].0 == addr);
    if j < i {
        assert(rows[j].0.bits < rows[i].0.bits);
    }
    if i < j {
        assert(rows[i].0.bits < rows[j].0.bits);
    }
}

/// Each entry of the map is a row of the sequence.
pub proof fn lemma_entry_is_row<V>(rows: Seq<(EndpointAddr, V)>, addr: EndpointAddr)
    requires
        rows_to_map(rows).contains_key(addr),
    ensures
        0 <= row_index(rows, addr) < rows.len(),
        rows[row_index(rows, addr)].0 == addr,
        rows[row_index(rows, addr)].1 == rows_to_map(rows)[addr],
{
    assert(has_row(rows, addr));
}

/// An ascending sequence of rows has as many rows as its map has entries.
pub proof fn lemma_rows_len<V>(rows: Seq<(EndpointAddr, V)>)
    requires
        strictly_ascending(rows),
    ensures
        rows_to_map(rows).dom().finite(),
        rows_to_map(rows).dom().len() == rows.len(),
    decreases rows.len(),
{
    if rows.len() == 0 {
        assert(rows_to_map(rows).dom() =~= Set::empty()) by {
            assert forall|addr: EndpointAddr| !rows_to_map(rows).dom().contains(addr) by {
                if has_row(rows, addr) {
                    let i = row_index(rows, addr);
                    assert(0 <= i < rows.len());
                }
            }
        }
    } else {
        let front = rows.drop_last();
        let last = rows.last();
        lemma_rows_len(front);
        assert(rows_to_map(rows).dom() =~= rows_to_map(front).dom().insert(last.0)) by {
            assert forall|addr: EndpointAddr|
                rows_to_map(rows).dom().contains(addr) == rows_to_map(front).dom().insert(
                    last.0,
                ).contains(addr) by {
                if has_row(rows, addr) {
                    let i = row_index(rows, addr);
                    if i < rows.len() - 1 {
                        assert(front[i].0 == addr);
                    }
                }
                if has_row(front, addr) {
                    let i = row_index(front, addr);
                    assert(rows[i].0 == addr);
                }
                if addr == last.0 {
                    assert(rows[rows.len() - 1].0 == addr);
                }
            }
        }
        assert(!rows_to_map(front).dom().contains(last.0)) by {
            if has_row(front, last.0) {
                let i = row_index(front, last.0);
                assert(rows[i].0.bits < rows[rows.len() - 1].0.bits);
            }
        }
    }
}

/// Putting a row at its place in an ascending sequence inserts it into the map.
pub proof fn lemma_rows_insert<V>(
    rows: Seq<(EndpointAddr, V)>,
    at: int,
    addr: EndpointAddr,
    value: V,
)
    requires
        strictly_ascending(rows),
        0 <= at <= rows.len(),
        forall|i: int| 0 <= i < at ==> (#[trigger] rows[i]).0.bits < addr.bits,
        forall|i: int| at <= i < rows.len() ==> addr.bits < (#[trigger] rows[i]).0.bits,
    ensures
        strictly_ascending(rows.insert(at, (addr, value))),
        rows_to_map(rows.insert(at, (addr, value))) == rows_to_map(rows).insert(addr, value),
{
    let after = rows.insert(at, (addr, value));
    assert(strictly_ascending(after)) by {
        assert forall|i: int, j: int| 0 <= i < j < after.len() implies after[i].0.bits
            < after[j].0.bits by {
            let oi = if i < at { i } else { i - 1 };
            let oj = if j < at { j } else { j - 1 };
            if i != at && j != at {
                assert(after[i] == rows[oi]);
                assert(after[j] == rows[oj]);
            } else if i == at {
                assert(after[j] == rows[oj]);
            } else {
                assert(after[i] == rows[oi]);
            }
        }
    }
    assert(rows_to_map(after) =~= rows_to_map(rows).insert(addr, value)) by {
        assert forall|k: EndpointAddr| #[trigger]
            rows_to_map(after).contains_key(k) == rows_to_map(rows).insert(addr, value).contains_key(
                k,
            ) by {
            if has_row(after, k) {
                let i = row_index(after, k);
                if i < at {
                    assert(rows[i].0 == k);
                } else if i > at {
                    assert(rows[i - 1].0 == k);
                }
            }
            if has_row(rows, k) {
                let i = row_index(rows, k);
                if i < at {
                    assert(after[i].0 == k);
                } else {
                    assert(after[i + 1].0 == k);
                }
            }
            if k == addr {
                assert(after[at].0 == k);
            }
        }
        assert forall|k: EndpointAddr| #[trigger]
            rows_to_map(after).contains_key(k) implies rows_to_map(after)[k] == rows_to_map(
            rows,
        ).insert(addr, value)[k] by {
            let i = row_index(after, k);
            lemma_row_is_entry(after, i);
            if i < at {
                assert(rows[i] == after[i]);
                lemma_row_is_entry(rows, i);
            } else if i > at {
                assert(rows[i - 1] == after[i]);
                lemma_row_is_entry(rows, i - 1);
            }
        }
    }
}

/// Taking a row out of an ascending sequence removes it from the map.
pub proof fn lemma_rows_remove<V>(rows: Seq<(EndpointAddr, V)>, at: int)
    requires
        strictly_ascending(rows),
        0 <= at < rows.len(),
    ensures
        strictly_ascending(rows.remove(at)),
        rows_to_map(rows.remove(at)) == rows_to_map(rows).remove(rows[at].0),
{
    let after = rows.remove(at);
    let addr = rows[at].0;
    assert(strictly_ascending(after)) by {
        assert forall|i: int, j: int| 0 <= i < j < after.len() implies after[i].0.bits
            < after[j].0.bits by {
            let oi = if i < at { i } else { i + 1 };
            let oj = if j < at { j } else { j + 1 };
            assert(after[i] == rows[oi]);
            assert(after[j] == rows[oj]);
        }
    }
    assert(rows_to_map(after) =~= rows_to_map(rows).remove(addr)) by {
        assert forall|k: EndpointAddr| #[trigger]
            rows_to_map(after).contains_key(k) == rows_to_map(rows).remove(addr).contains_key(
                k,
            ) by {
            if has_row(after, k) {
                let i = row_index(after, k);
                let oi = if i < at { i } else { i + 1 };
                assert(rows[oi] == after[i]);
                assert(rows[oi].0 == k);
                if k == addr {
                    if oi < at {
                        assert(rows[oi].0.bits < rows[at].0.bits);
                    } else {
                        assert(rows[at].0.bits < rows[oi].0.bits);
                    }
                }
            }
            if has_row(rows, k) && k != addr {
                let i = row_index(rows, k);
                if i < at {
                    assert(after[i].0 == k);
                } else {
                    assert(after[i - 1].0 == k);
                }
            }
        }
        assert forall|k: EndpointAddr| #[trigger]
            rows_to_map(after).contains_key(k) implies rows_to_map(after)[k] == rows_to_map(
            rows,
        ).remove(addr)[k] by {
            let i = row_index(after, k);
            lemma_row_is_entry(after, i);
            let oi = if i < at { i } else { i + 1 };
            assert(rows[oi] == after[i]);
            lemma_row_is_entry(rows, oi);
        }
    }
}

/// Replacing the value of a row replaces the value of its entry.
pub proof fn lemma_rows_update<V>(rows: Seq<(EndpointAddr, V)>, at: int, value: V)
    requires
        strictly_ascending(rows),
        0 <= at < rows.len(),
    ensures
        strictly_ascending(rows.update(at, (rows[at].0, value))),
        rows_to_map(rows.update(at, (rows[at].0, value))) == rows_to_map(rows).insert(
            rows[at].0,
            value,
        ),
{
    let addr = rows[at].0;
    let after = rows.update(at, (addr, value));
    assert(strictly_ascending(after)) by {
        assert forall|i: int, j: int| 0 <= i < j < after.len() implies after[i].0.bits
            < after[j].0.bits by {
            assert(after[i].0 == rows[i].0);
            assert(after[j].0 == rows[j].0);
        }
    }
    assert(rows_to_map(after) =~= rows_to_map(rows).insert(addr, value)) by {
        assert forall|k: EndpointAddr| #[trigger]
            rows_to_map(after).contains_key(k) == rows_to_map(rows).insert(addr, value).contains_key(
                k,
            ) by {
            if has_row(after, k) {
                let i = row_index(after, k);
                assert(rows[i].0 == k);
            }
            if has_row(rows, k) {
                let i = row_index(rows, k);
                assert(after[i].0 == k);
            }
        }
        assert forall|k: EndpointAddr| #[trigger]
            rows_to_map(after).contains_key(k) implies rows_to_map(after)[k] == rows_to_map(
            rows,
        ).insert(addr, value)[k] by {
            let i = row_index(after, k);
            lemma_row_is_entry(after, i);
            if i != at {
                assert(rows[i] == after[i]);
                lemma_row_is_entry(rows, i);
            }
        }
    }
}

/// A map from endpoint address to `V`, walked in address order.
#[derive(Debug)]
pub struct EpTable<V> {
    rows: Vec<(EndpointAddr, V)>,
}

impl<V> View for EpTable<V> {
    type V = Map<EndpointAddr, V>;

    open spec fn view(&self) -> Map<EndpointAddr, V> {
        rows_to_map(self.rows())
    }
}

impl<V> EpTable<V> {
    /// The rows of the table in the order in which a walk visits them.
    pub closed spec fn rows(&self) -> Seq<(EndpointAddr, V)> {
        self.rows@
    }

    /// The rows are in strictly ascending address order.
    pub open spec fn wf(&self) -> bool {
        strictly_ascending(self.rows())
    }

    pub fn new() -> (table: Self)
        ensures
            table.wf(),
            table.rows() == Seq::<(EndpointAddr, V)>::empty(),
            table@ == Map::<EndpointAddr, V>::empty(),
    {
        let table = EpTable { rows: Vec::new() };
        assert(table@ =~= Map::<EndpointAddr, V>::empty()) by {
            assert forall|addr: EndpointAddr| !has_row(table.rows(), addr) by {}
        }
        table
    }

    pub fn len(&self) -> (n: usize)
        ensures
            n == self.rows().len(),
            self.wf() ==> n == self@.dom().len(),
    {
        proof {
            if self.wf() {
                lemma_rows_len(self.rows());
            }
        }
        self.rows.len()
    }

    /// Address of the `i`-th row.
    pub fn key_at(&self, i: usize) -> (addr: EndpointAddr)
        requires
            i < self.rows().len(),
        ensures
            addr == self.rows()[i as int].0,
    {
        self.rows[i].0
    }

    /// Value of the `i`-th row.
    pub fn value_at(&self, i: usize) -> (value: &V)
        requires
            i < self.rows().len(),
        ensures
            *value == self.rows()[i as int].1,
    {
        &self.rows[i].1
    }

    /// Index of the first row whose address is not below `addr`.
    fn lower_bound(&self, addr: EndpointAddr) -> (at: usize)
        requires
            self.wf(),
        ensures
            at <= self.rows().len(),
            forall|i: int| 0 <= i < at ==> (#[trigger] self.rows()[i]).0.bits < addr.bits,
            forall|i: int|
                at <= i < self.rows().len() ==> addr.bits <= (#[trigger] self.rows()[i]).0.bits,
    {
        let mut lo: usize = 0;
        let mut hi: usize = self.rows.len();
        while lo < hi
            invariant
                self.wf(),
                lo <= hi <= self.rows().len(),
                forall|i: int| 0 <= i < lo ==> (#[trigger] self.rows()[i]).0.bits < addr.bits,
                forall|i: int|
                    hi <= i < self.rows().len() ==> addr.bits <= (#[trigger] self.rows()[i]).0.bits,
            decreases hi - lo,
        {
            let mid: usize = lo + (hi - lo) / 2;
            if self.rows[mid].0.bits < addr.bits {
                assert forall|i: int| 0 <= i < mid + 1 implies (#[trigger] self.rows()[i]).0.bits
                    < addr.bits by {
                    if i < mid {
                        assert(self.rows()[i].0.bits < self.rows()[mid as int].0.bits);
                    }
                }
                lo = mid + 1;
            } else {
                assert forall|i: int| mid <= i < self.rows().len() implies addr.bits <= (
                #[trigger] self.rows()[i]).0.bits by {
                    if mid < i {
                        assert(self.rows()[mid as int].0.bits < self.rows()[i].0.bits);
                    }
                }
                hi = mid;
            }
        }
        lo
    }

    /// Index of the row keyed by `addr`, if there is one.
    pub fn position(&self, addr: EndpointAddr) -> (at: Option<usize>)
        requires
            self.wf(),
        ensures
            at is Some <==> self@.contains_key(addr),
            at matches Some(i) ==> i < self.rows().len() && self.rows()[i as int].0 == addr
                && self.rows()[i as int].1 == self@[addr],
    {
        let at = self.lower_bound(addr);
        if at < self.rows.len() && self.rows[at].0.bits == addr.bits {
            proof {
                lemma_row_is_entry(self.rows(), at as int);
            }
            Some(at)
        } else {
            proof {
                if has_row(self.rows(), addr) {
                    let i = row_index(self.rows(), addr);
                    assert(self.rows()[i].0 == addr);
                }
            }
            None
        }
    }

    pub fn contains_key(&self, addr: EndpointAddr) -> (found: bool)
        requires
            self.wf(),
        ensures
            found == self@.contains_key(addr),
    {
        self.position(addr).is_some()
    }

    pub fn get(&self, addr: EndpointAddr) -> (value: Option<&V>)
        requires
            self.wf(),
        ensures
            value is Some <==> self@.contains_key(addr),
            value matches Some(v) ==> *v == self@[addr],
    {
        match self.position(addr) {
            Some(i) => Some(&self.rows[i].1),
            None => None,
        }
    }

    /// Sets the value of `addr`, and returns the value that it replaces.
    pub fn insert(&mut self, addr: EndpointAddr, value: V) -> (replaced: Option<V>)
        requires
            old(self).wf(),
        ensures
            final(self).wf(),
            final(self)@ == old(self)@.insert(addr, value),
            replaced is Some <==> old(self)@.contains_key(addr),
            replaced matches Some(v) ==> v == old(self)@[addr],
    {
        let at = self.lower_bound(addr);
        if at < self.rows.len() && self.rows[at].0.bits == addr.bits {
            proof {
                lemma_row_is_entry(self.rows(), at as int);
                lemma_rows_remove(self.rows(), at as int);
            }
            let ghost before = self.rows();
            let row = self.rows.remove(at);
            proof {
                lemma_rows_insert(self.rows(), at as int, addr, value);
                assert(before.remove(at as int).insert(at as int, (addr, value)) =~= before.update(
                    at as int,
                    (addr, value),
                ));
                assert(rows_to_map(before).remove(addr).insert(addr, value) =~= rows_to_map(
                    before,
                ).insert(addr, value));
            }
            self.rows.insert(at, (addr, value));
            Some(row.1)
        } else {
            proof {
                if has_row(self.rows(), addr) {
                    let i = row_index(self.rows(), addr);
                    assert(self.rows()[i].0 == addr);
                }
                lemma_rows_insert(self.rows(), at as int, addr, value);
            }
            self.rows.insert(at, (addr, value));
            None
        }
    }

    /// Replaces the value of the `i`-th row.
    pub fn set_value_at(&mut self, i: usize, value: V)
        requires
            old(self).wf(),
            i < old(self).rows().len(),
        ensures
            final(self).wf(),
            final(self).rows() == old(self).rows().update(
                i as int,
                (old(self).rows()[i as int].0, value),
            ),
            final(self)@ == old(self)@.insert(old(self).rows()[i as int].0, value),
    {
        proof {
            lemma_rows_update(self.rows(), i as int, value);
        }
        let addr = self.rows[i].0;
        self.rows.set(i, (addr, value));
    }

    /// The value of the `i`-th row, to be changed in place.
    pub fn value_at_mut(&mut self, i: usize) -> (value: &mut V)
        requires
            old(self).wf(),
            i < old(self).rows().len(),
        ensures
            *value == old(self).rows()[i as int].1,
            final(self).rows() == old(self).rows().update(
                i as int,
                (old(self).rows()[i as int].0, *final(value)),
            ),
            final(self).wf(),
            final(self)@ == old(self)@.insert(old(self).rows()[i as int].0, *final(value)),
    {
        proof {
            let rows = self.rows();
            assert forall|v: V|
                strictly_ascending(#[trigger] rows.update(i as int, (rows[i as int].0, v)))
                    && rows_to_map(rows.update(i as int, (rows[i as int].0, v))) == rows_to_map(
                    rows,
                ).insert(rows[i as int].0, v) by {
                lemma_rows_update(rows, i as int, v);
            }
        }
        &mut self.rows[i].1
    }

    /// True when the rows are in strictly ascending address order.
    pub fn is_ordered(&self) -> (yes: bool)
        ensures
            yes == self.wf(),
    {
        let n = self.rows.len();
        if n == 0 {
            return true;
        }
        let mut i: usize = 1;
        while i < n
            invariant
                1 <= i <= n,
                n == self.rows().len(),
                forall|a: int, b: int| 0 <= a < b < i ==> self.rows()[a].0.bits < self.rows()[b].0.bits,
            decreases n - i,
        {
            if self.rows[i - 1].0.bits >= self.rows[i].0.bits {
                return false;
            }
            proof {
                assert forall|a: int, b: int| 0 <= a < b < i + 1 implies self.rows()[a].0.bits
                    < self.rows()[b].0.bits by {
                    if b == i && a < i - 1 {
                        assert(self.rows()[a].0.bits < self.rows()[i - 1].0.bits);
                    }
                }
            }
            i += 1;
        }
        true
    }

    /// True when the two tables have rows for the same endpoints.
    pub fn same_keys<W>(&self, other: &EpTable<W>) -> (yes: bool)
        requires
            self.wf(),
            other.wf(),
        ensures
            yes == (self@.dom() == other@.dom()),
    {
        proof {
            lemma_rows_len(self.rows());
            lemma_rows_len(other.rows());
        }
        if self.rows.len() != other.rows.len() {
            return false;
        }
        let n = self.rows.len();
        let mut i: usize = 0;
        while i < n
            invariant
                i <= n,
                n == self.rows().len(),
                n == other.rows().len(),
                self.wf(),
                other.wf(),
                forall|k: int| 0 <= k < i ==> (#[trigger] self.rows()[k]).0 == other.rows()[k].0,
            decreases n - i,
        {
            if self.rows[i].0.bits != other.rows[i].0.bits {
                proof {
                    if self@.dom() == other@.dom() {
                        lemma_same_keys(self.rows(), other.rows());
                    }
                }
                return false;
            }
            i += 1;
        }
        proof {
            assert(self@.dom() =~= other@.dom()) by {
                assert forall|addr: EndpointAddr| self@.dom().contains(addr)
                    == other@.dom().contains(addr) by {
                    if has_row(self.rows(), addr) {
                        let k = row_index(self.rows(), addr);
                        assert(other.rows()[k].0 == addr);
                    }
                    if has_row(other.rows(), addr) {
                        let k = row_index(other.rows(), addr);
                        assert(self.rows()[k].0 == addr);
                    }
                }
            }
        }
        true
    }

    /// Removes the row of `addr`, and returns its value.
    pub fn remove(&mut self, addr: EndpointAddr) -> (removed: Option<V>)
        requires
            old(self).wf(),
        ensures
            final(self).wf(),
            final(self)@ == old(self)@.remove(addr),
            removed is Some <==> old(self)@.contains_key(addr),
            removed matches Some(v) ==> v == old(self)@[addr],
    {
        match self.position(addr) {
            Some(at) => {
                proof {
                    lemma_rows_remove(self.rows(), at as int);
                }
                let row = self.rows.remove(at);
                Some(row.1)
            },
            None => {
                assert(self@.remove(addr) =~= self@);
                None
            },
        }
    }
}

impl<V: Copy> EpTable<V> {
    /// A copy of the table.
    pub fn duplicate(&self) -> (copy: Self)
        ensures
            copy.rows() == self.rows(),
            copy@ == self@,
    {
        let mut rows: Vec<(EndpointAddr, V)> = Vec::new();
        let mut i: usize = 0;
        while i < self.rows.len()
            invariant
                i <= self.rows.len(),
                rows@ == self.rows@.take(i as int),
            decreases self.rows.len() - i,
        {
            rows.push((self.rows[i].0, self.rows[i].1));
            i += 1;
            assert(self.rows@.take(i as int) =~= self.rows@.take(i - 1).push(self.rows@[i - 1]));
        }
        assert(self.rows@.take(self.rows.len() as int) =~= self.rows@);
        EpTable { rows }
    }
}

/// A table has a row exactly when its map has an entry.
pub proof fn lemma_rows_empty<V>(rows: Seq<(EndpointAddr, V)>)
    requires
        strictly_ascending(rows),
    ensures
        rows.len() > 0 <==> exists|addr: EndpointAddr| rows_to_map(rows).contains_key(addr),
{
    if rows.len() > 0 {
        lemma_row_is_entry(rows, 0);
    }
    if exists|addr: EndpointAddr| rows_to_map(rows).contains_key(addr) {
        let addr = choose|addr: EndpointAddr| rows_to_map(rows).contains_key(addr);
        lemma_entry_is_row(rows, addr);
    }
}

/// Two ascending sequences of rows for the same endpoints have the same
/// address at each place.
pub proof fn lemma_same_keys<V, W>(a: Seq<(EndpointAddr, V)>, b: Seq<(EndpointAddr, W)>)
    requires
        strictly_ascending(a),
        strictly_ascending(b),
        rows_to_map(a).dom() == rows_to_map(b).dom(),
    ensures
        a.len() == b.len(),
        forall|i: int| 0 <= i < a.len() ==> (#[trigger] a[i]).0 == b[i].0,
    decreases a.len(),
{
    lemma_rows_len(a);
    lemma_rows_len(b);
    if a.len() > 0 {
        let last_a = a.last().0;
        let last_b = b.last().0;
        lemma_row_is_entry(a, a.len() - 1);
        lemma_row_is_entry(b, b.len() - 1);
        assert(rows_to_map(b).dom().contains(last_a));
        assert(rows_to_map(a).dom().contains(last_b));
        let j = row_index(b, last_a);
        let k = row_index(a, last_b);
        assert(b[j].0 == last_a && a[k].0 == last_b);
        if j < b.len() - 1 {
            assert(b[j].0.bits < b[b.len() - 1].0.bits);
            if k < a.len() - 1 {
                assert(a[k].0.bits < a[a.len() - 1].0.bits);
            }
        }
        assert(last_a == last_b);
        lemma_rows_remove(a, a.len() - 1);
        lemma_rows_remove(b, b.len() - 1);
        assert(a.remove(a.len() - 1) =~= a.drop_last());
        assert(b.remove(b.len() - 1) =~= b.drop_last());
        lemma_same_keys(a.drop_last(), b.drop_last());
        assert forall|i: int| 0 <= i < a.len() implies (#[trigger] a[i]).0 == b[i].0 by {
            if i < a.len() - 1 {
                assert(a.drop_last()[i].0 == b.drop_last()[i].0);
            }
        }
    }
}

} // verus!

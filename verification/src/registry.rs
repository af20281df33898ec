//! The permission registry: the authoritative mapping from permission name to
//! its assigned single-bit value. Entries are kept strictly sorted by name,
//! which keeps lookups deterministic and makes the names distinct by
//! construction; values are distinct single bits.

use vstd::prelude::*;

use crate::bits::lemma_shift_strictly_monotone;
use crate::bits::single_bit;
use crate::models::IamError;
use crate::models::Permission;
use crate::models::PermissionView;
use crate::order::lemma_lex_transitive;
use crate::order::lemma_lex_trichotomy;
use crate::order::lex_lt;
use crate::order::str_lt;
use crate::utils::find_next_available_bit;

verus! {

/// The mathematical image of a sequence of permissions.
pub open spec fn perm_views(s: Seq<Permission>) -> Seq<PermissionView> {
    s.map_values(|p: Permission| p@)
}

/// Is `n` the name of some entry of `s`?
pub open spec fn contains_name(s: Seq<PermissionView>, n: Seq<char>) -> bool {
    exists|i: int| 0 <= i < s.len() && s[i].name == n
}

/// The bit value bound to name `n` in `s`; meaningful when `contains_name`
/// holds and the names of `s` are distinct.
pub open spec fn value_of(s: Seq<PermissionView>, n: Seq<char>) -> u64 {
    let i = choose|i: int| 0 <= i < s.len() && s[i].name == n;
    s[i].value
}

/// Is `v` the assigned value of some entry of `s`?
pub open spec fn contains_value(s: Seq<PermissionView>, v: u64) -> bool {
    exists|i: int| 0 <= i < s.len() && s[i].value == v
}

/// Well-formed registry contents: entries strictly sorted by name (so the
/// names are distinct), every value a single bit, and the values distinct.
pub open spec fn wf_entries(s: Seq<PermissionView>) -> bool {
    &&& forall|i: int, j: int| 0 <= i < j < s.len() ==> lex_lt(s[i].name, s[j].name)
    &&& forall|i: int| 0 <= i < s.len() ==> single_bit(s[i].value)
    &&& forall|i: int, j: int| 0 <= i < j < s.len() ==> s[i].value != s[j].value
}

/// In a well-formed registry the entry found at an index is the one that
/// `value_of` speaks of: the sort order rules out a second entry of that name.
pub proof fn lemma_value_of_at(s: Seq<PermissionView>, i: int)
    requires
        wf_entries(s),
        0 <= i < s.len(),
    ensures
        contains_name(s, s[i].name),
        value_of(s, s[i].name) == s[i].value,
{
    let n = s[i].name;
    assert(contains_name(s, n));
    let j = choose|j: int| 0 <= j < s.len() && s[j].name == n;
    if i != j {
        if i < j {
            assert(lex_lt(s[i].name, s[j].name));
        } else {
            assert(lex_lt(s[j].name, s[i].name));
        }
        lemma_lex_trichotomy(n, n);
    }
}

/// Distinct registered names hold distinct values.
pub proof fn lemma_value_of_injective(s: Seq<PermissionView>, n1: Seq<char>, n2: Seq<char>)
    requires
        wf_entries(s),
        contains_name(s, n1),
        contains_name(s, n2),
        n1 != n2,
    ensures
        value_of(s, n1) != value_of(s, n2),
{
    let i = choose|i: int| 0 <= i < s.len() && s[i].name == n1;
    let j = choose|j: int| 0 <= j < s.len() && s[j].name == n2;
    lemma_value_of_at(s, i);
    lemma_value_of_at(s, j);
}

/// The registry component. It owns the name-to-value mapping; it is mutated
/// only through registration and removal, and hands out owned copies.
pub struct PermissionRegistry {
    pub(crate) entries: Vec<Permission>,
}

impl View for PermissionRegistry {
    type V = Seq<PermissionView>;

    closed spec fn view(&self) -> Seq<PermissionView> {
        perm_views(self.entries@)
    }
}

/// Within the crate, the registry's view is exactly the image of its entries.
pub(crate) proof fn lemma_registry_view(r: &PermissionRegistry)
    ensures
        r@ == perm_views(r.entries@),
        r@.len() == r.entries@.len(),
        forall|i: int| 0 <= i < r.entries@.len() ==> r@[i] == #[trigger] r.entries@[i]@,
{
}

impl PermissionRegistry {
    /// The registry's invariant.
    pub open spec fn wf(self) -> bool {
        wf_entries(self@)
    }

    /// A fresh registry holding the four canonical default capabilities with
    /// ascending bit values 1, 2, 4 and 8.
    pub fn new() -> (r: PermissionRegistry)
        ensures
            r.wf(),
            r@.len() == 4,
            contains_name(r@, "READ"@) && value_of(r@, "READ"@) == 1,
            contains_name(r@, "WRITE"@) && value_of(r@, "WRITE"@) == 2,
            contains_name(r@, "EXECUTE"@) && value_of(r@, "EXECUTE"@) == 4,
            contains_name(r@, "DELETE"@) && value_of(r@, "DELETE"@) == 8,
            forall|n: Seq<char>|
                contains_name(r@, n) ==> n == "READ"@ || n == "WRITE"@ || n == "EXECUTE"@ || n
                    == "DELETE"@,
    {
        let mut entries: Vec<Permission> = Vec::new();
        entries.push(Permission::new(String::from_str("DELETE"), 8));
        entries.push(Permission::new(String::from_str("EXECUTE"), 4));
        entries.push(Permission::new(String::from_str("READ"), 1));
        entries.push(Permission::new(String::from_str("WRITE"), 2));
        let r = PermissionRegistry { entries };
        proof {
            reveal_strlit("DELETE");
            reveal_strlit("EXECUTE");
            reveal_strlit("READ");
            reveal_strlit("WRITE");
            assert(r@.len() == 4);
            assert(r@[0].name == "DELETE"@ && r@[0].value == 8);
            assert(r@[1].name == "EXECUTE"@ && r@[1].value == 4);
            assert(r@[2].name == "READ"@ && r@[2].value == 1);
            assert(r@[3].name == "WRITE"@ && r@[3].value == 2);
            assert(lex_lt("DELETE"@, "EXECUTE"@));
            assert(lex_lt("DELETE"@, "READ"@));
            assert(lex_lt("DELETE"@, "WRITE"@));
            assert(lex_lt("EXECUTE"@, "READ"@));
            assert(lex_lt("EXECUTE"@, "WRITE"@));
            assert(lex_lt("READ"@, "WRITE"@));
            assert(1u64 == (1u64 << 0u64) && 2u64 == (1u64 << 1u64) && 4u64 == (1u64 << 2u64)
                && 8u64 == (1u64 << 3u64)) by (bit_vector);
            assert(single_bit(1) && single_bit(2) && single_bit(4) && single_bit(8));
            assert(r.wf());
            lemma_value_of_at(r@, 0);
            lemma_value_of_at(r@, 1);
            lemma_value_of_at(r@, 2);
            lemma_value_of_at(r@, 3);
        }
        r
    }

    /// Registers a new permission under the lowest free bit value. Fails if
    /// the name is already present, or with `SlotsExhausted` when every one of
    /// the 64 bit positions is held by a live permission.
    pub fn register(&mut self, name: String) -> (r: Result<Permission, IamError>)
        requires
            old(self).wf(),
        ensures
            final(self).wf(),
            match r {
                Ok(p) => {
                    &&& !contains_name(old(self)@, name@)
                    &&& p@.name == name@
                    &&& single_bit(p@.value)
                    &&& !contains_value(old(self)@, p@.value)
                    &&& forall|w: u64|
                        single_bit(w) && w < p@.value ==> contains_value(old(self)@, w)
                    &&& exists|i: int|
                        0 <= i <= old(self)@.len() && final(self)@ == old(self)@.insert(i, p@)
                    &&& contains_name(final(self)@, name@) && value_of(final(self)@, name@)
                        == p@.value
                    &&& forall|n: Seq<char>|
                        n != name@ ==> (contains_name(final(self)@, n) <==> contains_name(
                            old(self)@,
                            n,
                        ))
                    &&& forall|n: Seq<char>|
                        n != name@ && contains_name(old(self)@, n) ==> value_of(final(self)@, n)
                            == value_of(old(self)@, n)
                },
                Err(e) => match e {
                    IamError::PermissionAlreadyExists(m) => m@ == name@ && contains_name(
                        old(self)@,
                        name@,
                    ) && final(self)@ == old(self)@,
                    IamError::SlotsExhausted => !contains_name(old(self)@, name@) && (forall|
                        w: u64,
                    |
                        single_bit(w) ==> contains_value(old(self)@, w)) && final(self)@ == old(
                        self,
                    )@,
                    _ => false,
                },
            },
    {
        let ghost s = self@;
        let n = self.entries.len();
        let mut i: usize = 0;
        while i < n && str_lt(self.entries[i].name.as_str(), name.as_str())
            invariant
                i <= n,
                n == self@.len(),
                self@ == s,
                forall|k: int| 0 <= k < i ==> lex_lt(s[k].name, name@),
            decreases n - i,
        {
            assert(self@[i as int].name == self.entries@[i as int]@.name);
            i += 1;
        }
        if i < n && self.entries[i].name == name {
            proof {
                assert(s[i as int] == self.entries@[i as int]@);
                assert(contains_name(s, name@));
            }
            return Err(IamError::PermissionAlreadyExists(name));
        }
        proof {
            if i < n {
                assert(s[i as int] == self.entries@[i as int]@);
            }
        }
        proof {
            assert forall|k: int| i <= k < s.len() implies lex_lt(name@, s[k].name) by {
                lemma_lex_trichotomy(s[i as int].name, name@);
                if k > i {
                    lemma_lex_transitive(name@, s[i as int].name, s[k].name);
                }
            }
            assert forall|k: int| 0 <= k < s.len() implies s[k].name != name@ by {
                if k < i {
                    lemma_lex_trichotomy(s[k].name, name@);
                } else {
                    lemma_lex_trichotomy(name@, s[k].name);
                }
            }
            assert(!contains_name(s, name@));
        }
        let mut used: Vec<u64> = Vec::new();
        let mut j: usize = 0;
        while j < n
            invariant
                j <= n,
                n == self@.len(),
                self@ == s,
                used@.len() == j,
                forall|k: int| 0 <= k < j ==> used@[k] == s[k].value,
            decreases n - j,
        {
            used.push(self.entries[j].value);
            j += 1;
        }
        match find_next_available_bit(&used) {
            Ok(v) => {
                proof {
                    assert forall|w: u64| used@.contains(w) implies contains_value(s, w) by {
                        let m = choose|m: int| 0 <= m < used@.len() && used@[m] == w;
                        assert(s[m].value == w);
                    }
                    assert forall|w: u64| contains_value(s, w) implies used@.contains(w) by {
                        let m = choose|m: int| 0 <= m < s.len() && s[m].value == w;
                        assert(used@[m] == w);
                    }
                }
                let p = Permission::new(name, v);
                let stored = p.clone();
                self.entries.insert(i, stored);
                proof {
                    let t = s.insert(i as int, p@);
                    s.insert_ensures(i as int, p@);
                    assert forall|k: int| 0 <= k < self@.len() implies self@[k] == t[k] by {
                        assert(self@[k] == self.entries@[k]@);
                    }
                    assert(self@ =~= t);
                    assert forall|x: int, y: int| 0 <= x < y < t.len() implies lex_lt(
                        t[x].name,
                        t[y].name,
                    ) by {
                        if y == i {
                            assert(lex_lt(s[x].name, name@));
                        } else if x == i {
                            assert(lex_lt(name@, s[y - 1].name));
                        }
                    }
                    assert(!contains_value(s, p@.value));
                    assert forall|x: int| 0 <= x < t.len() implies single_bit(t[x].value) by {
                        if x < i {
                            assert(t[x] == s[x]);
                        } else if x > i {
                            assert(t[x] == s[x - 1]);
                        }
                    }
                    assert forall|x: int, y: int|
                        0 <= x < y < t.len() implies t[x].value != t[y].value by {
                        if y == i {
                            assert(t[x] == s[x]);
                        } else if x == i {
                            assert(t[y] == s[y - 1]);
                        }
                    }
                    assert(self.wf());
                    lemma_value_of_at(t, i as int);
                    assert forall|nm: Seq<char>|
                        nm != name@ && contains_name(s, nm) implies contains_name(t, nm)
                        && value_of(t, nm) == value_of(s, nm) by {
                        let k = choose|k: int| 0 <= k < s.len() && s[k].name == nm;
                        lemma_value_of_at(s, k);
                        let k2: int = if k < i {
                            k
                        } else {
                            k + 1
                        };
                        assert(t[k2] == s[k]);
                        lemma_value_of_at(t, k2);
                    }
                    assert forall|nm: Seq<char>|
                        nm != name@ && contains_name(t, nm) implies contains_name(s, nm) by {
                        let k = choose|k: int| 0 <= k < t.len() && t[k].name == nm;
                        if k < i {
                            assert(s[k].name == nm);
                        } else {
                            assert(s[k - 1].name == nm);
                        }
                    }
                    assert(0 <= i <= s.len() && self@ == s.insert(i as int, p@));
                }
                Ok(p)
            },
            Err(e) => {
                proof {
                    assert forall|w: u64| single_bit(w) implies contains_value(s, w) by {
                        assert(used@.contains(w));
                        let m = choose|m: int| 0 <= m < used@.len() && used@[m] == w;
                        assert(s[m].value == w);
                    }
                }
                Err(IamError::SlotsExhausted)
            },
        }
    }

    /// Deletes the entry of the given name. The stored masks of existing users
    /// are left untouched: a removed permission's bit may survive in them.
    pub fn remove(&mut self, name: &String) -> (r: Result<(), IamError>)
        requires
            old(self).wf(),
        ensures
            final(self).wf(),
            match r {
                Ok(_) => {
                    &&& contains_name(old(self)@, name@)
                    &&& exists|i: int|
                        0 <= i < old(self)@.len() && old(self)@[i].name == name@ && final(self)@
                            == old(self)@.remove(i)
                    &&& !contains_name(final(self)@, name@)
                    &&& forall|n: Seq<char>|
                        n != name@ ==> (contains_name(final(self)@, n) <==> contains_name(
                            old(self)@,
                            n,
                        ))
                    &&& forall|n: Seq<char>|
                        n != name@ && contains_name(old(self)@, n) ==> value_of(final(self)@, n)
                            == value_of(old(self)@, n)
                    &&& forall|v: u64|
                        contains_value(final(self)@, v) ==> contains_value(old(self)@, v)
                },
                Err(e) => (e matches IamError::PermissionNotFound(m) && m@ == name@)
                    && !contains_name(old(self)@, name@) && final(self)@ == old(self)@,
            },
    {
        let ghost s = self@;
        let n = self.entries.len();
        let mut i: usize = 0;
        while i < n
            invariant
                i <= n,
                n == self@.len(),
                self@ == s,
                s == old(self)@,
                wf_entries(s),
                forall|k: int| 0 <= k < i ==> s[k].name != name@,
            decreases n - i,
        {
            proof {
                assert(s[i as int] == self.entries@[i as int]@);
            }
            if self.entries[i].name == *name {
                self.entries.remove(i);
                proof {
                    let t = s.remove(i as int);
                    s.remove_ensures(i as int);
                    assert forall|k: int| 0 <= k < self@.len() implies self@[k] == t[k] by {
                        assert(self@[k] == self.entries@[k]@);
                    }
                    assert(self@ =~= t);
                    assert(self.wf());
                    assert forall|k: int| 0 <= k < t.len() implies t[k].name != name@ by {
                        if k < i {
                            assert(t[k] == s[k]);
                        } else {
                            assert(t[k] == s[k + 1]);
                            lemma_value_of_at(s, i as int);
                            lemma_value_of_at(s, k + 1);
                            assert(lex_lt(s[i as int].name, s[k + 1].name));
                            lemma_lex_trichotomy(s[i as int].name, s[k + 1].name);
                        }
                    }
                    assert(!contains_name(t, name@));
                    assert forall|nm: Seq<char>|
                        nm != name@ && contains_name(s, nm) implies contains_name(t, nm)
                        && value_of(t, nm) == value_of(s, nm) by {
                        let k = choose|k: int| 0 <= k < s.len() && s[k].name == nm;
                        lemma_value_of_at(s, k);
                        let k2: int = if k < i {
                            k
                        } else {
                            k - 1
                        };
                        assert(t[k2] == s[k]);
                        lemma_value_of_at(t, k2);
                    }
                    assert forall|nm: Seq<char>|
                        nm != name@ && contains_name(t, nm) implies contains_name(s, nm) by {
                        let k = choose|k: int| 0 <= k < t.len() && t[k].name == nm;
                        if k < i {
                            assert(s[k].name == nm);
                        } else {
                            assert(s[k + 1].name == nm);
                        }
                    }
                    assert forall|v: u64| contains_value(t, v) implies contains_value(s, v) by {
                        let k = choose|k: int| 0 <= k < t.len() && t[k].value == v;
                        if k < i {
                            assert(s[k].value == v);
                        } else {
                            assert(s[k + 1].value == v);
                        }
                    }
                }
                return Ok(());
            }
            i += 1;
        }
        Err(IamError::PermissionNotFound(name.clone()))
    }

    /// The index of the entry holding value `v`, if any.
    fn find_by_value(&self, v: u64) -> (r: Option<usize>)
        ensures
            match r {
                Some(i) => i < self@.len() && self@[i as int].value == v,
                None => !contains_value(self@, v),
            },
    {
        let n = self.entries.len();
        let mut i: usize = 0;
        while i < n
            invariant
                i <= n,
                n == self@.len(),
                forall|k: int| 0 <= k < i ==> self@[k].value != v,
            decreases n - i,
        {
            if self.entries[i].value == v {
                return Some(i);
            }
            i += 1;
        }
        None
    }

    /// Owned copies of all live permissions, in ascending order of bit value:
    /// the deterministic listing order.
    pub fn list(&self) -> (r: Vec<Permission>)
        requires
            self.wf(),
        ensures
            forall|i: int, j: int|
                0 <= i < j < r@.len() ==> (#[trigger] r@[i]@).value < (#[trigger] r@[j]@).value,
            forall|pv: PermissionView| perm_views(r@).contains(pv) <==> self@.contains(pv),
    {
        let mut out: Vec<Permission> = Vec::new();
        let mut k: usize = 0;
        while k < 64
            invariant
                k <= 64,
                self.wf(),
                forall|i: int, j: int|
                    0 <= i < j < out@.len() ==> (#[trigger] out@[i]@).value < (
                    #[trigger] out@[j]@).value,
                forall|i: int|
                    0 <= i < out@.len() ==> exists|m: u64|
                        m < k && (#[trigger] out@[i]@).value == (1u64 << m),
                forall|pv: PermissionView|
                    #[trigger] perm_views(out@).contains(pv) <==> self@.contains(pv) && (exists|
                        m: u64,
                    | m < k && pv.value == (1u64 << m)),
            decreases 64 - k,
        {
            let v: u64 = 1u64 << (k as u64);
            let ghost prev = out@;
            match self.find_by_value(v) {
                Some(idx) => {
                    let p = self.entries[idx].clone();
                    assert(p@ == self@[idx as int]);
                    out.push(p);
                    proof {
                        assert(perm_views(out@) =~= perm_views(prev).push(self@[idx as int]));
                        assert forall|i: int, j: int|
                            0 <= i < j < out@.len() implies (#[trigger] out@[i]@).value < (
                        #[trigger] out@[j]@).value by {
                            if j == out@.len() - 1 && i < j {
                                let m = choose|m: u64|
                                    m < k && (out@[i]@).value == (1u64 << m);
                                lemma_shift_strictly_monotone(m, k as u64);
                            }
                        }
                        assert forall|pv: PermissionView| #[trigger]
                            perm_views(out@).contains(pv) implies self@.contains(pv) && (exists|
                            m: u64,
                        | m < k + 1 && pv.value == (1u64 << m)) by {
                            if perm_views(prev).contains(pv) {
                            } else {
                                assert(pv == self@[idx as int]);
                                assert((k as u64) < 64 && pv.value == (1u64 << (k as u64)));
                            }
                        }
                        assert forall|pv: PermissionView|
                            self@.contains(pv) && (exists|m: u64|
                                m < k + 1 && pv.value == (1u64 << m)) implies #[trigger]
                        perm_views(out@).contains(pv) by {
                            let m = choose|m: u64| m < k + 1 && pv.value == (1u64 << m);
                            if m < k {
                                assert(perm_views(prev).contains(pv));
                                let q = choose|q: int|
                                    0 <= q < perm_views(prev).len() && perm_views(prev)[q] == pv;
                                assert(perm_views(out@)[q] == pv);
                            } else {
                                // pv.value == v: the found entry is the only one of that value
                                let q = choose|q: int| 0 <= q < self@.len() && self@[q] == pv;
                                if q != idx {
                                    assert(self@[q].value == self@[idx as int].value);
                                }
                                assert(pv == self@[idx as int]);
                                assert(perm_views(out@)[out@.len() - 1] == pv);
                            }
                        }
                    }
                },
                None => {
                    proof {
                        assert forall|pv: PermissionView|
                            self@.contains(pv) && (exists|m: u64|
                                m < k + 1 && pv.value == (1u64 << m)) implies #[trigger]
                        perm_views(out@).contains(pv) by {
                            let m = choose|m: u64| m < k + 1 && pv.value == (1u64 << m);
                            if m == k {
                                let q = choose|q: int| 0 <= q < self@.len() && self@[q] == pv;
                                assert(contains_value(self@, v));
                            }
                        }
                    }
                },
            }
            k += 1;
        }
        proof {
            assert forall|pv: PermissionView| self@.contains(pv) implies #[trigger]
            perm_views(out@).contains(pv) by {
                let q = choose|q: int| 0 <= q < self@.len() && self@[q] == pv;
                assert(single_bit(self@[q].value));
                let m = choose|m: u64| m < 64 && pv.value == (1u64 << m);
            }
        }
        out
    }
}

} // verus!

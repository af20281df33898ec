//! The bitmask codec: translation between permission names and the 64-bit
//! mask, and allocation of the next free bit.

use vstd::prelude::*;

use crate::bits::lemma_covers_basics;
use crate::bits::lemma_covers_union_split;
use crate::bits::lemma_distinct_single_bits_disjoint;
use crate::bits::lemma_single_bit_below;
use crate::bits::lemma_single_bit_nonzero;
use crate::bits::lemma_union_covers_single_bit;
use crate::bits::mask_contains;
use crate::bits::mask_union;
use crate::bits::mask_covers;
use crate::bits::single_bit;
use crate::models::IamError;
use crate::models::PermissionView;
use crate::order::lex_lt;
use crate::registry::contains_name;
use crate::registry::lemma_registry_view;
use crate::registry::lemma_value_of_at;
use crate::registry::value_of;
use crate::registry::wf_entries;
use crate::registry::PermissionRegistry;

verus! {

/// Every name of `names` is registered in `s`.
pub open spec fn all_registered(s: Seq<PermissionView>, names: Seq<Seq<char>>) -> bool {
    forall|i: int| 0 <= i < names.len() ==> contains_name(s, names[i])
}

/// `m` is the first name of `names` that is not registered in `s`: every name
/// before it is registered. This is the name a failed translation reports.
pub open spec fn first_missing(s: Seq<PermissionView>, names: Seq<Seq<char>>, m: Seq<char>) -> bool {
    exists|j: int|
        0 <= j < names.len() && m == names[j] && !contains_name(s, names[j]) && (forall|k: int|
            0 <= k < j ==> contains_name(s, #[trigger] names[k]))
}

/// The mask obtained by OR-ing together the values of the named permissions.
pub open spec fn mask_of(s: Seq<PermissionView>, names: Seq<Seq<char>>) -> u64
    decreases names.len(),
{
    if names.len() == 0 {
        0u64
    } else {
        mask_of(s, names.drop_last()) | value_of(s, names.last())
    }
}

/// Linear membership scan over a vector of mask values.
fn values_contain(values: &Vec<u64>, v: u64) -> (r: bool)
    ensures
        r == values@.contains(v),
{
    let n = values.len();
    let mut i: usize = 0;
    while i < n
        invariant
            i <= n,
            n == values@.len(),
            forall|k: int| 0 <= k < i ==> values@[k] != v,
        decreases n - i,
    {
        if values[i] == v {
            return true;
        }
        i += 1;
    }
    false
}

/// The lowest unused single-bit value: scans upward from bit value 1 and
/// returns the first candidate that no current assignment holds, so a freed
/// slot is reused before a new one is taken. Fails exactly when every one of
/// the 64 bit positions is occupied.
pub fn find_next_available_bit(used_values: &Vec<u64>) -> (r: Result<u64, IamError>)
    ensures
        match r {
            Ok(v) => single_bit(v) && !used_values@.contains(v) && (forall|w: u64|
                single_bit(w) && w < v ==> used_values@.contains(w)),
            Err(e) => (e matches IamError::SlotsExhausted) && (forall|w: u64|
                single_bit(w) ==> used_values@.contains(w)),
        },
{
    let mut k: usize = 0;
    while k < 64
        invariant
            k <= 64,
            forall|m: u64| m < k ==> used_values@.contains(1u64 << m),
        decreases 64 - k,
    {
        let candidate: u64 = 1u64 << (k as u64);
        if !values_contain(used_values, candidate) {
            proof {
                assert((k as u64) < 64 && candidate == (1u64 << (k as u64)));
                assert(single_bit(candidate));
                assert forall|w: u64| single_bit(w) && w < candidate implies used_values@.contains(
                    w,
                ) by {
                    lemma_single_bit_below(w, k as u64);
                }
            }
            return Ok(candidate);
        }
        k += 1;
    }
    proof {
        assert forall|w: u64| single_bit(w) implies used_values@.contains(w) by {
            let m = choose|m: u64| m < 64 && w == (1u64 << m);
            assert(used_values@.contains(1u64 << m));
        }
    }
    Err(IamError::SlotsExhausted)
}

/// The value registered under `name`, found by a linear scan.
fn find_by_name(registry: &PermissionRegistry, name: &String) -> (r: Option<u64>)
    requires
        registry.wf(),
    ensures
        match r {
            Some(v) => contains_name(registry@, name@) && v == value_of(registry@, name@),
            None => !contains_name(registry@, name@),
        },
{
    let n = registry.entries.len();
    proof {
        lemma_registry_view(registry);
    }
    let mut i: usize = 0;
    while i < n
        invariant
            i <= n,
            registry.wf(),
            n == registry@.len(),
            forall|k: int| 0 <= k < i ==> registry@[k].name != name@,
        decreases n - i,
    {
        proof {
            lemma_registry_view(registry);
        }
        if registry.entries[i].name == *name {
            proof {
                lemma_value_of_at(registry@, i as int);
            }
            return Some(registry.entries[i].value);
        }
        i += 1;
    }
    None
}

/// ORs together the bit values of the named permissions against the current
/// registry contents. Fails fast on the first name that is not registered;
/// an empty list yields mask 0.
pub fn permission_names_to_bits(registry: &PermissionRegistry, names: &Vec<String>) -> (r: Result<
    u64,
    IamError,
>)
    requires
        registry.wf(),
    ensures
        match r {
            Ok(bits) => all_registered(registry@, names.deep_view()) && bits == mask_of(
                registry@,
                names.deep_view(),
            ),
            Err(e) => (e matches IamError::PermissionNotFound(m) && first_missing(
                registry@,
                names.deep_view(),
                m@,
            )) && !all_registered(registry@, names.deep_view()),
        },
{
    let ghost dv = names.deep_view();
    let mut bits: u64 = 0;
    let n = names.len();
    let mut idx: usize = 0;
    while idx < n
        invariant
            idx <= n,
            registry.wf(),
            n == names@.len(),
            dv == names.deep_view(),
            bits == mask_of(registry@, dv.subrange(0, idx as int)),
            forall|k: int| 0 <= k < idx ==> contains_name(registry@, dv[k]),
        decreases n - idx,
    {
        match find_by_name(registry, &names[idx]) {
            Some(v) => {
                proof {
                    let pre = dv.subrange(0, idx as int);
                    let ext = dv.subrange(0, idx as int + 1);
                    assert(ext.drop_last() =~= pre);
                    assert(ext.last() == dv[idx as int]);
                    assert(dv[idx as int] == names@[idx as int]@);
                }
                bits = mask_union(bits, v);
                idx += 1;
            },
            None => {
                proof {
                    assert(dv[idx as int] == names@[idx as int]@);
                }
                return Err(IamError::PermissionNotFound(names[idx].clone()));
            },
        }
    }
    proof {
        assert(dv.subrange(0, n as int) =~= dv);
    }
    Ok(bits)
}

/// The registered names among the first `upto` entries whose bit is covered
/// by `bits`, in entry order.
spec fn covered_names(s: Seq<PermissionView>, bits: u64, upto: int) -> Seq<Seq<char>>
    decreases upto,
{
    if upto <= 0 {
        Seq::empty()
    } else if mask_covers(bits, s[upto - 1].value) {
        covered_names(s, bits, upto - 1).push(s[upto - 1].name)
    } else {
        covered_names(s, bits, upto - 1)
    }
}

proof fn lemma_covered_names_membership(s: Seq<PermissionView>, bits: u64, upto: int, n: Seq<char>)
    requires
        0 <= upto <= s.len(),
    ensures
        covered_names(s, bits, upto).contains(n) <==> exists|k: int|
            0 <= k < upto && s[k].name == n && mask_covers(bits, s[k].value),
    decreases upto,
{
    if upto > 0 {
        lemma_covered_names_membership(s, bits, upto - 1, n);
        let pre = covered_names(s, bits, upto - 1);
        let cur = covered_names(s, bits, upto);
        if mask_covers(bits, s[upto - 1].value) {
            assert(cur == pre.push(s[upto - 1].name));
            assert(cur[pre.len() as int] == s[upto - 1].name);
            if cur.contains(n) {
                let m = choose|m: int| 0 <= m < cur.len() && cur[m] == n;
                if m < pre.len() {
                    assert(pre[m] == n);
                }
            }
            if pre.contains(n) {
                let m = choose|m: int| 0 <= m < pre.len() && pre[m] == n;
                assert(cur[m] == n);
            }
        }
        if exists|k: int| 0 <= k < upto && s[k].name == n && mask_covers(bits, s[k].value) {
            let k = choose|k: int| 0 <= k < upto && s[k].name == n && mask_covers(bits, s[k].value);
            if k < upto - 1 {
                assert(pre.contains(n));
                if mask_covers(bits, s[upto - 1].value) {
                    let m = choose|m: int| 0 <= m < pre.len() && pre[m] == n;
                    assert(cur[m] == n);
                }
            }
        }
    }
}

proof fn lemma_covered_names_sorted(s: Seq<PermissionView>, bits: u64, upto: int)
    requires
        wf_entries(s),
        0 <= upto <= s.len(),
    ensures
        forall|a: int, b: int|
            0 <= a < b < covered_names(s, bits, upto).len() ==> lex_lt(
                #[trigger] covered_names(s, bits, upto)[a],
                #[trigger] covered_names(s, bits, upto)[b],
            ),
    decreases upto,
{
    if upto > 0 {
        lemma_covered_names_sorted(s, bits, upto - 1);
        let pre = covered_names(s, bits, upto - 1);
        let cur = covered_names(s, bits, upto);
        if mask_covers(bits, s[upto - 1].value) {
            assert forall|a: int, b: int|
                0 <= a < b < cur.len() implies lex_lt(#[trigger] cur[a], #[trigger] cur[b]) by {
                if b == cur.len() - 1 {
                    assert(cur[a] == pre[a]);
                    assert(pre.contains(pre[a]));
                    lemma_covered_names_membership(s, bits, upto - 1, pre[a]);
                    let k = choose|k: int|
                        0 <= k < upto - 1 && s[k].name == pre[a] && mask_covers(bits, s[k].value);
                    assert(lex_lt(s[k].name, s[upto - 1].name));
                } else {
                    assert(cur[a] == pre[a] && cur[b] == pre[b]);
                }
            }
        }
    }
}

/// The names of all currently registered permissions whose bit is covered by
/// `bits`, in strictly ascending lexicographic order. A bit whose permission
/// was removed from the registry is silently omitted. Never fails.
pub fn bits_to_permission_names(registry: &PermissionRegistry, bits: u64) -> (r: Result<
    Vec<String>,
    IamError,
>)
    requires
        registry.wf(),
    ensures
        r matches Ok(names) && {
            &&& forall|i: int, j: int|
                0 <= i < j < names@.len() ==> lex_lt(
                    #[trigger] names.deep_view()[i],
                    #[trigger] names.deep_view()[j],
                )
            &&& forall|n: Seq<char>|
                names.deep_view().contains(n) <==> (contains_name(registry@, n) && mask_covers(
                    bits,
                    value_of(registry@, n),
                ))
        },
{
    let ghost s = registry@;
    let mut out: Vec<String> = Vec::new();
    let n = registry.entries.len();
    proof {
        lemma_registry_view(registry);
    }
    let mut idx: usize = 0;
    while idx < n
        invariant
            idx <= n,
            registry.wf(),
            s == registry@,
            n == s.len(),
            out.deep_view() == covered_names(s, bits, idx as int),
        decreases n - idx,
    {
        proof {
            lemma_registry_view(registry);
            assert(s[idx as int] == registry.entries@[idx as int]@);
        }
        let ghost prev = out.deep_view();
        if mask_contains(bits, registry.entries[idx].value) {
            out.push(registry.entries[idx].name.clone());
            proof {
                assert(out.deep_view() =~= prev.push(s[idx as int].name));
            }
        }
        idx += 1;
    }
    proof {
        lemma_covered_names_sorted(s, bits, n as int);
        assert forall|n2: Seq<char>|
            out.deep_view().contains(n2) <==> (contains_name(s, n2) && mask_covers(
            bits,
            value_of(s, n2),
        )) by {
            lemma_covered_names_membership(s, bits, n as int, n2);
            if out.deep_view().contains(n2) {
                let k = choose|k: int|
                    0 <= k < n && s[k].name == n2 && mask_covers(bits, s[k].value);
                lemma_value_of_at(s, k);
            }
            if contains_name(s, n2) {
                let k = choose|k: int| 0 <= k < s.len() && s[k].name == n2;
                lemma_value_of_at(s, k);
            }
        }
    }
    Ok(out)
}

/// The mask built from a list of registered names covers a registered name's
/// bit exactly when that name is in the list.
pub proof fn lemma_mask_membership(s: Seq<PermissionView>, names: Seq<Seq<char>>, n: Seq<char>)
    requires
        wf_entries(s),
        all_registered(s, names),
        contains_name(s, n),
    ensures
        mask_covers(mask_of(s, names), value_of(s, n)) <==> names.contains(n),
    decreases names.len(),
{
    let vn = value_of(s, n);
    let k = choose|k: int| 0 <= k < s.len() && s[k].name == n;
    lemma_value_of_at(s, k);
    assert(single_bit(vn));
    if names.len() == 0 {
        lemma_single_bit_nonzero(vn);
        lemma_covers_basics(0, vn);
    } else {
        let pre = names.drop_last();
        let last = names.last();
        assert(all_registered(s, pre)) by {
            assert(forall|i: int| 0 <= i < pre.len() ==> pre[i] == names[i]);
        }
        lemma_mask_membership(s, pre, n);
        let vlast = value_of(s, last);
        lemma_union_covers_single_bit(mask_of(s, pre), vlast, vn);
        if n == last {
            lemma_covers_basics(vn, vn);
            assert(names[names.len() - 1] == n);
            assert(names.contains(n));
        } else {
            crate::registry::lemma_value_of_injective(s, last, n);
            let k2 = choose|k2: int| 0 <= k2 < s.len() && s[k2].name == last;
            lemma_value_of_at(s, k2);
            lemma_distinct_single_bits_disjoint(vn, vlast);
            assert(pre.contains(n) <==> names.contains(n)) by {
                if pre.contains(n) {
                    let m = choose|m: int| 0 <= m < pre.len() && pre[m] == n;
                    assert(names[m] == n);
                }
                if names.contains(n) {
                    let m = choose|m: int| 0 <= m < names.len() && names[m] == n;
                    assert(pre[m] == n);
                }
            }
        }
    }
}

/// A mask grants a translated requirement exactly when it grants every named
/// bit in it.
pub proof fn lemma_mask_grants_all(s: Seq<PermissionView>, names: Seq<Seq<char>>, u: u64)
    requires
        wf_entries(s),
        all_registered(s, names),
    ensures
        mask_covers(u, mask_of(s, names)) <==> (forall|i: int|
            0 <= i < names.len() ==> mask_covers(u, value_of(s, #[trigger] names[i]))),
    decreases names.len(),
{
    if names.len() == 0 {
        lemma_covers_basics(u, 0);
    } else {
        let pre = names.drop_last();
        assert(all_registered(s, pre)) by {
            assert(forall|i: int| 0 <= i < pre.len() ==> pre[i] == names[i]);
        }
        lemma_mask_grants_all(s, pre, u);
        lemma_covers_union_split(u, mask_of(s, pre), value_of(s, names.last()));
        assert(forall|i: int| 0 <= i < pre.len() ==> pre[i] == names[i]);
        assert(names[names.len() - 1] == names.last());
    }
}

/// A permission update replaces the previously granted set instead of merging
/// with it: a mask rebuilt from the name list `b` never covers the bit of a
/// registered name outside `b`, whatever set `a` was granted before.
pub proof fn lemma_update_replaces(
    s: Seq<PermissionView>,
    a: Seq<Seq<char>>,
    b: Seq<Seq<char>>,
    n: Seq<char>,
)
    requires
        wf_entries(s),
        all_registered(s, a),
        all_registered(s, b),
        contains_name(s, n),
        a.contains(n),
        !b.contains(n),
    ensures
        !mask_covers(mask_of(s, b), value_of(s, n)),
{
    lemma_mask_membership(s, b, n);
}

/// Round trip: the names whose bit the translated mask covers are exactly the
/// names that were translated, so translating back yields the same set.
pub proof fn lemma_round_trip(s: Seq<PermissionView>, names: Seq<Seq<char>>, n: Seq<char>)
    requires
        wf_entries(s),
        all_registered(s, names),
    ensures
        (contains_name(s, n) && mask_covers(mask_of(s, names), value_of(s, n))) <==> names.contains(
            n,
        ),
{
    if contains_name(s, n) {
        lemma_mask_membership(s, names, n);
    } else {
        if names.contains(n) {
            let m = choose|m: int| 0 <= m < names.len() && names[m] == n;
            assert(contains_name(s, names[m]));
        }
    }
}

/// A stale bit is silently omitted: any name list that satisfies the
/// translation contract against a registry that no longer holds `w` leaves
/// `w` out, whatever bits the stored mask still carries.
pub proof fn lemma_stale_bit_omitted(
    s: Seq<PermissionView>,
    w: Seq<char>,
    mask: u64,
    names: Seq<Seq<char>>,
)
    requires
        !contains_name(s, w),
        forall|n: Seq<char>|
            #[trigger] names.contains(n) <==> (contains_name(s, n) && mask_covers(
                mask,
                value_of(s, n),
            )),
    ensures
        !names.contains(w),
{
}

} // verus!

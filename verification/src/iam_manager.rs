//! The facade composing the permission registry and the user directory. It
//! owns both mappings exclusively; every operation is a single bounded
//! in-memory step, and all data handed back consists of owned copies.
//!
//! Reads take `&self` and mutations take `&mut self`, so an embedding program
//! that shares a manager puts it behind a reader/writer lock and maps a
//! poisoned lock to `IamError::LockUnavailable`.

use vstd::prelude::*;

use crate::bits::lemma_covers_basics;
use crate::bits::lemma_difference_covers_single_bit;
use crate::bits::mask_contains;
use crate::bits::mask_covers;
use crate::bits::mask_difference;
use crate::bits::single_bit;
use crate::models::IamError;
use crate::models::Permission;
use crate::models::PermissionView;
use crate::models::User;
use crate::models::UserView;
use crate::order::lex_lt;
use crate::registry::contains_name;
use crate::registry::lemma_value_of_at;
use crate::registry::value_of;
use crate::registry::wf_entries;
use crate::registry::PermissionRegistry;
use crate::utils::all_registered;
use crate::utils::bits_to_permission_names;
use crate::utils::first_missing;
use crate::utils::lemma_mask_grants_all;
use crate::utils::lemma_mask_membership;
use crate::utils::mask_of;
use crate::utils::permission_names_to_bits;

verus! {

/// The mathematical image of the user directory.
pub open spec fn user_views(s: Seq<User>) -> Seq<UserView> {
    s.map_values(|u: User| u@)
}

/// No two records share an identifier.
pub open spec fn distinct_ids(us: Seq<UserView>) -> bool {
    forall|i: int, j: int|
        0 <= i < j < us.len() ==> (#[trigger] us[i]).id != (#[trigger] us[j]).id
}

/// Is `id` the identifier of some record of `us`?
pub open spec fn contains_user(us: Seq<UserView>, id: Seq<char>) -> bool {
    exists|i: int| 0 <= i < us.len() && us[i].id == id
}

/// The record stored under `id`; meaningful when `contains_user` holds and
/// the identifiers are distinct.
pub open spec fn user_of(us: Seq<UserView>, id: Seq<char>) -> UserView {
    let i = choose|i: int| 0 <= i < us.len() && us[i].id == id;
    us[i]
}

/// With distinct identifiers, the record found at an index is the one that
/// `user_of` speaks of.
pub proof fn lemma_user_of_at(us: Seq<UserView>, i: int)
    requires
        distinct_ids(us),
        0 <= i < us.len(),
    ensures
        contains_user(us, us[i].id),
        user_of(us, us[i].id) == us[i],
{
    let j = choose|j: int| 0 <= j < us.len() && us[j].id == us[i].id;
    assert(j == i);
}

/// The identity-and-permission directory: the registry of permissions and
/// the directory of users behind one interface.
pub struct IamManager {
    registry: PermissionRegistry,
    users: Vec<User>,
}

impl IamManager {
    /// The current registry contents.
    pub closed spec fn reg(self) -> Seq<PermissionView> {
        self.registry@
    }

    /// The current user directory contents.
    pub closed spec fn users(self) -> Seq<UserView> {
        user_views(self.users@)
    }

    /// The manager's invariant: a well-formed registry and distinct user
    /// identifiers.
    pub open spec fn wf(self) -> bool {
        &&& wf_entries(self.reg())
        &&& distinct_ids(self.users())
    }

    /// A fresh manager: no users, and the four canonical default permissions
    /// with ascending bit values 1, 2, 4 and 8.
    pub fn new() -> (r: IamManager)
        ensures
            r.wf(),
            r.users().len() == 0,
            r.reg().len() == 4,
            contains_name(r.reg(), "READ"@) && value_of(r.reg(), "READ"@) == 1,
            contains_name(r.reg(), "WRITE"@) && value_of(r.reg(), "WRITE"@) == 2,
            contains_name(r.reg(), "EXECUTE"@) && value_of(r.reg(), "EXECUTE"@) == 4,
            contains_name(r.reg(), "DELETE"@) && value_of(r.reg(), "DELETE"@) == 8,
            forall|n: Seq<char>|
                contains_name(r.reg(), n) ==> n == "READ"@ || n == "WRITE"@ || n == "EXECUTE"@ || n
                    == "DELETE"@,
    {
        let r = IamManager { registry: PermissionRegistry::new(), users: Vec::new() };
        r
    }

    /// The index of the record with the given identifier, if any.
    fn find_user_index(&self, id: &String) -> (r: Option<usize>)
        ensures
            match r {
                Some(i) => i < self.users().len() && self.users()[i as int].id == id@,
                None => !contains_user(self.users(), id@),
            },
    {
        let n = self.users.len();
        let mut i: usize = 0;
        while i < n
            invariant
                i <= n,
                n == self.users().len(),
                n == self.users@.len(),
                forall|k: int| 0 <= k < i ==> self.users()[k].id != id@,
            decreases n - i,
        {
            proof {
                assert(self.users()[i as int] == self.users@[i as int]@);
            }
            if self.users[i].id == *id {
                return Some(i);
            }
            i += 1;
        }
        None
    }

    /// Creates a user: translates the permission names to a mask against the
    /// current registry snapshot, derives the credential, draws a fresh
    /// identifier and stores the record. The mask is resolved once, at
    /// creation time; later registry changes never alter it.
    pub fn create_user(
        &mut self,
        name: String,
        email: String,
        password: String,
        permission_names: &Vec<String>,
    ) -> (r: Result<User, IamError>)
        requires
            old(self).wf(),
        ensures
            final(self).wf(),
            final(self).reg() == old(self).reg(),
            match r {
                Ok(u) => {
                    &&& all_registered(old(self).reg(), permission_names.deep_view())
                    &&& u@.name == name@
                    &&& u@.email == email@
                    &&& u@.permissions == mask_of(old(self).reg(), permission_names.deep_view())
                    &&& contains_user(final(self).users(), u@.id)
                    &&& user_of(final(self).users(), u@.id) == u@
                    &&& forall|oid: Seq<char>|
                        oid != u@.id ==> (contains_user(final(self).users(), oid) <==> contains_user(
                            old(self).users(),
                            oid,
                        ))
                    &&& forall|oid: Seq<char>|
                        oid != u@.id && contains_user(old(self).users(), oid) ==> user_of(
                            final(self).users(),
                            oid,
                        ) == user_of(old(self).users(), oid)
                },
                Err(e) => final(self).users() == old(self).users() && match e {
                    IamError::PermissionNotFound(m) => first_missing(
                        old(self).reg(),
                        permission_names.deep_view(),
                        m@,
                    ) && !all_registered(old(self).reg(), permission_names.deep_view()),
                    IamError::CredentialDerivationFailed => all_registered(
                        old(self).reg(),
                        permission_names.deep_view(),
                    ),
                    _ => false,
                },
            },
    {
        let bits = match permission_names_to_bits(&self.registry, permission_names) {
            Ok(b) => b,
            Err(e) => {
                return Err(e);
            },
        };
        let user = match User::new(name, email, password, bits) {
            Ok(u) => u,
            Err(e) => {
                return Err(e);
            },
        };
        let stored = user.clone();
        let ghost us = self.users();
        match self.find_user_index(&user.id) {
            Some(i) => {
                self.users[i] = stored;
                proof {
                    let t = us.update(i as int, user@);
                    assert forall|k: int| 0 <= k < self.users().len() implies self.users()[k]
                        == t[k] by {
                        assert(self.users()[k] == self.users@[k]@);
                    }
                    assert(self.users() =~= t);
                    assert(us[i as int].id == user@.id);
                    assert(distinct_ids(t));
                    lemma_user_of_at(t, i as int);
                    assert forall|oid: Seq<char>|
                        oid != user@.id && contains_user(us, oid) implies contains_user(t, oid)
                        && user_of(t, oid) == user_of(us, oid) by {
                        let k = choose|k: int| 0 <= k < us.len() && us[k].id == oid;
                        lemma_user_of_at(us, k);
                        assert(t[k] == us[k]);
                        lemma_user_of_at(t, k);
                    }
                    assert forall|oid: Seq<char>|
                        oid != user@.id && contains_user(t, oid) implies contains_user(us, oid) by {
                        let k = choose|k: int| 0 <= k < t.len() && t[k].id == oid;
                        assert(us[k].id == oid);
                    }
                }
                Ok(user)
            },
            None => {
                self.users.push(stored);
                proof {
                    let t = us.push(user@);
                    assert forall|k: int| 0 <= k < self.users().len() implies self.users()[k]
                        == t[k] by {
                        assert(self.users()[k] == self.users@[k]@);
                    }
                    assert(self.users() =~= t);
                    assert forall|x: int, y: int|
                        0 <= x < y < t.len() implies (#[trigger] t[x]).id != (
                    #[trigger] t[y]).id by {
                        if y == t.len() - 1 {
                            assert(t[x] == us[x]);
                            assert(contains_user(us, us[x].id));
                        }
                    }
                    lemma_user_of_at(t, t.len() - 1);
                    assert forall|oid: Seq<char>|
                        oid != user@.id && contains_user(us, oid) implies contains_user(t, oid)
                        && user_of(t, oid) == user_of(us, oid) by {
                        let k = choose|k: int| 0 <= k < us.len() && us[k].id == oid;
                        lemma_user_of_at(us, k);
                        assert(t[k] == us[k]);
                        lemma_user_of_at(t, k);
                    }
                    assert forall|oid: Seq<char>|
                        oid != user@.id && contains_user(t, oid) implies contains_user(us, oid) by {
                        let k = choose|k: int| 0 <= k < t.len() && t[k].id == oid;
                        assert(us[k].id == oid);
                    }
                }
                Ok(user)
            },
        }
    }

    /// Replaces a user's whole permission mask with one freshly translated
    /// from the given names: an update supersedes the old mask, it never
    /// merges with it.
    pub fn update_user_permissions(&mut self, id: &String, permission_names: &Vec<String>) -> (r:
        Result<User, IamError>)
        requires
            old(self).wf(),
        ensures
            final(self).wf(),
            final(self).reg() == old(self).reg(),
            match r {
                Ok(u) => {
                    &&& all_registered(old(self).reg(), permission_names.deep_view())
                    &&& contains_user(old(self).users(), id@)
                    &&& u@.id == id@
                    &&& u@.permissions == mask_of(old(self).reg(), permission_names.deep_view())
                    &&& u@.name == user_of(old(self).users(), id@).name
                    &&& u@.email == user_of(old(self).users(), id@).email
                    &&& u@.password_hash == user_of(old(self).users(), id@).password_hash
                    &&& contains_user(final(self).users(), id@)
                    &&& user_of(final(self).users(), id@) == u@
                    &&& forall|oid: Seq<char>|
                        oid != id@ ==> (contains_user(final(self).users(), oid) <==> contains_user(
                            old(self).users(),
                            oid,
                        ))
                    &&& forall|oid: Seq<char>|
                        oid != id@ && contains_user(old(self).users(), oid) ==> user_of(
                            final(self).users(),
                            oid,
                        ) == user_of(old(self).users(), oid)
                },
                Err(e) => final(self).users() == old(self).users() && match e {
                    IamError::PermissionNotFound(m) => first_missing(
                        old(self).reg(),
                        permission_names.deep_view(),
                        m@,
                    ) && !all_registered(old(self).reg(), permission_names.deep_view()),
                    IamError::UserNotFound(m) => m@ == id@ && all_registered(
                        old(self).reg(),
                        permission_names.deep_view(),
                    ) && !contains_user(old(self).users(), id@),
                    _ => false,
                },
            },
    {
        let bits = match permission_names_to_bits(&self.registry, permission_names) {
            Ok(b) => b,
            Err(e) => {
                return Err(e);
            },
        };
        match self.find_user_index(id) {
            None => Err(IamError::UserNotFound(id.clone())),
            Some(i) => {
                let ghost us = self.users();
                proof {
                    assert(us[i as int] == self.users@[i as int]@);
                    lemma_user_of_at(us, i as int);
                }
                let old_u = self.users[i].clone();
                let updated = User {
                    id: old_u.id,
                    name: old_u.name,
                    email: old_u.email,
                    password_hash: old_u.password_hash,
                    permissions: bits,
                };
                let ret = updated.clone();
                self.users[i] = updated;
                proof {
                    let t = us.update(i as int, ret@);
                    assert forall|k: int| 0 <= k < self.users().len() implies self.users()[k]
                        == t[k] by {
                        assert(self.users()[k] == self.users@[k]@);
                    }
                    assert(self.users() =~= t);
                    assert(us[i as int].id == ret@.id);
                    assert(distinct_ids(t));
                    lemma_user_of_at(t, i as int);
                    assert forall|oid: Seq<char>|
                        oid != id@ && contains_user(us, oid) implies contains_user(t, oid)
                        && user_of(t, oid) == user_of(us, oid) by {
                        let k = choose|k: int| 0 <= k < us.len() && us[k].id == oid;
                        lemma_user_of_at(us, k);
                        assert(t[k] == us[k]);
                        lemma_user_of_at(t, k);
                    }
                    assert forall|oid: Seq<char>|
                        oid != id@ && contains_user(t, oid) implies contains_user(us, oid) by {
                        let k = choose|k: int| 0 <= k < t.len() && t[k].id == oid;
                        assert(us[k].id == oid);
                    }
                }
                Ok(ret)
            },
        }
    }

    /// Looks a user up by identifier; absence is an `Option`, not an error.
    pub fn get_user(&self, id: &String) -> (r: Option<User>)
        requires
            self.wf(),
        ensures
            match r {
                Some(u) => contains_user(self.users(), id@) && u@ == user_of(self.users(), id@),
                None => !contains_user(self.users(), id@),
            },
    {
        match self.find_user_index(id) {
            Some(i) => {
                proof {
                    lemma_user_of_at(self.users(), i as int);
                    assert(self.users()[i as int] == self.users@[i as int]@);
                }
                Some(self.users[i].clone())
            },
            None => None,
        }
    }

    /// A user together with the names of the permissions the stored mask
    /// currently grants, in ascending name order. Bits whose permission has
    /// been removed from the registry are silently omitted.
    pub fn get_user_with_permission_names(&self, id: &String) -> (r: Option<(User, Vec<String>)>)
        requires
            self.wf(),
        ensures
            match r {
                Some(p) => {
                    &&& contains_user(self.users(), id@)
                    &&& p.0@ == user_of(self.users(), id@)
                    &&& forall|i: int, j: int|
                        0 <= i < j < p.1@.len() ==> lex_lt(
                            #[trigger] p.1.deep_view()[i],
                            #[trigger] p.1.deep_view()[j],
                        )
                    &&& forall|n: Seq<char>|
                        p.1.deep_view().contains(n) <==> (contains_name(self.reg(), n)
                            && mask_covers(
                            user_of(self.users(), id@).permissions,
                            value_of(self.reg(), n),
                        ))
                },
                None => !contains_user(self.users(), id@),
            },
    {
        let user = match self.get_user(id) {
            Some(u) => u,
            None => {
                return None;
            },
        };
        let names = match bits_to_permission_names(&self.registry, user.permissions) {
            Ok(ns) => ns,
            Err(_) => {
                return vstd::pervasive::unreached();
            },
        };
        Some((user, names))
    }

    /// Checks whether the user's stored mask grants every named permission.
    /// Returns whether all are granted, and the granted-set's shortfall: the
    /// required names whose bit the mask lacks, in ascending name order. An
    /// empty requirement is trivially satisfied.
    pub fn check_permissions(&self, id: &String, required: &Vec<String>) -> (r: Result<
        (bool, Vec<String>),
        IamError,
    >)
        requires
            self.wf(),
        ensures
            match r {
                Ok(res) => {
                    &&& all_registered(self.reg(), required.deep_view())
                    &&& contains_user(self.users(), id@)
                    &&& res.0 == mask_covers(
                        user_of(self.users(), id@).permissions,
                        mask_of(self.reg(), required.deep_view()),
                    )
                    &&& (res.0 <==> forall|i: int|
                        0 <= i < required@.len() ==> mask_covers(
                            user_of(self.users(), id@).permissions,
                            value_of(self.reg(), #[trigger] required.deep_view()[i]),
                        ))
                    &&& forall|i: int, j: int|
                        0 <= i < j < res.1@.len() ==> lex_lt(
                            #[trigger] res.1.deep_view()[i],
                            #[trigger] res.1.deep_view()[j],
                        )
                    &&& forall|n: Seq<char>|
                        #[trigger] res.1.deep_view().contains(n) <==> (required.deep_view()
                            .contains(n) && !mask_covers(
                            user_of(self.users(), id@).permissions,
                            value_of(self.reg(), n),
                        ))
                    &&& (required@.len() == 0 ==> res.0 == true && res.1@.len() == 0)
                },
                Err(e) => match e {
                    IamError::PermissionNotFound(m) => first_missing(
                        self.reg(),
                        required.deep_view(),
                        m@,
                    ) && !all_registered(self.reg(), required.deep_view()),
                    IamError::UserNotFound(m) => m@ == id@ && all_registered(
                        self.reg(),
                        required.deep_view(),
                    ) && !contains_user(self.users(), id@),
                    _ => false,
                },
            },
    {
        let ghost s = self.reg();
        let ghost rdv = required.deep_view();
        let bits = match permission_names_to_bits(&self.registry, required) {
            Ok(b) => b,
            Err(e) => {
                return Err(e);
            },
        };
        let i = match self.find_user_index(id) {
            Some(i) => i,
            None => {
                return Err(IamError::UserNotFound(id.clone()));
            },
        };
        proof {
            assert(self.users()[i as int] == self.users@[i as int]@);
            lemma_user_of_at(self.users(), i as int);
        }
        let granted = self.users[i].permissions;
        let ok = mask_contains(granted, bits);
        let missing_bits = mask_difference(bits, granted);
        let missing = match bits_to_permission_names(&self.registry, missing_bits) {
            Ok(ns) => ns,
            Err(_) => {
                return vstd::pervasive::unreached();
            },
        };
        proof {
            lemma_mask_grants_all(s, rdv, granted);
            assert forall|n: Seq<char>| #[trigger]
                missing.deep_view().contains(n) <==> (rdv.contains(n) && !mask_covers(
                granted,
                value_of(s, n),
            )) by {
                if contains_name(s, n) {
                    let k = choose|k: int| 0 <= k < s.len() && s[k].name == n;
                    lemma_value_of_at(s, k);
                    lemma_difference_covers_single_bit(bits, granted, value_of(s, n));
                    lemma_mask_membership(s, rdv, n);
                } else {
                    if rdv.contains(n) {
                        let m = choose|m: int| 0 <= m < rdv.len() && rdv[m] == n;
                        assert(contains_name(s, rdv[m]));
                    }
                }
            }
            if required.len() == 0 {
                assert(bits == mask_of(s, rdv));
                assert(rdv.len() == 0);
                lemma_covers_basics(granted, 0);
                assert(ok);
                if missing@.len() > 0 {
                    assert(missing.deep_view().contains(missing.deep_view()[0]));
                }
            }
        }
        Ok((ok, missing))
    }

    /// Registers a new permission through the facade; thin delegation to the
    /// registry.
    pub fn add_permission(&mut self, name: String) -> (r: Result<Permission, IamError>)
        requires
            old(self).wf(),
        ensures
            final(self).wf(),
            final(self).users() == old(self).users(),
            match r {
                Ok(p) => {
                    &&& !contains_name(old(self).reg(), name@)
                    &&& p@.name == name@
                    &&& single_bit(p@.value)
                    &&& !crate::registry::contains_value(old(self).reg(), p@.value)
                    &&& forall|w: u64|
                        single_bit(w) && w < p@.value ==> crate::registry::contains_value(
                            old(self).reg(),
                            w,
                        )
                    &&& contains_name(final(self).reg(), name@) && value_of(final(self).reg(), name@)
                        == p@.value
                    &&& forall|n: Seq<char>|
                        n != name@ ==> (contains_name(final(self).reg(), n) <==> contains_name(
                            old(self).reg(),
                            n,
                        ))
                    &&& forall|n: Seq<char>|
                        n != name@ && contains_name(old(self).reg(), n) ==> value_of(
                            final(self).reg(),
                            n,
                        ) == value_of(old(self).reg(), n)
                },
                Err(e) => final(self).reg() == old(self).reg() && match e {
                    IamError::PermissionAlreadyExists(m) => m@ == name@ && contains_name(
                        old(self).reg(),
                        name@,
                    ),
                    IamError::SlotsExhausted => !contains_name(old(self).reg(), name@) && (forall|
                        w: u64,
                    | single_bit(w) ==> crate::registry::contains_value(old(self).reg(), w)),
                    _ => false,
                },
            },
    {
        self.registry.register(name)
    }

    /// Removes a permission through the facade; existing user masks keep the
    /// freed bit untouched. Thin delegation to the registry.
    pub fn remove_permission(&mut self, name: &String) -> (r: Result<(), IamError>)
        requires
            old(self).wf(),
        ensures
            final(self).wf(),
            final(self).users() == old(self).users(),
            match r {
                Ok(_) => {
                    &&& contains_name(old(self).reg(), name@)
                    &&& !contains_name(final(self).reg(), name@)
                    &&& forall|n: Seq<char>|
                        n != name@ ==> (contains_name(final(self).reg(), n) <==> contains_name(
                            old(self).reg(),
                            n,
                        ))
                    &&& forall|n: Seq<char>|
                        n != name@ && contains_name(old(self).reg(), n) ==> value_of(
                            final(self).reg(),
                            n,
                        ) == value_of(old(self).reg(), n)
                },
                Err(e) => (e matches IamError::PermissionNotFound(m) && m@ == name@)
                    && !contains_name(old(self).reg(), name@) && final(self).reg() == old(
                    self,
                ).reg(),
            },
    {
        self.registry.remove(name)
    }

    /// Owned copies of all live permissions in ascending order of bit value;
    /// thin delegation to the registry.
    pub fn list_permissions(&self) -> (r: Vec<Permission>)
        requires
            self.wf(),
        ensures
            forall|i: int, j: int|
                0 <= i < j < r@.len() ==> (#[trigger] r@[i]@).value < (#[trigger] r@[j]@).value,
            forall|pv: PermissionView|
                #[trigger] crate::registry::perm_views(r@).contains(pv) <==> self.reg().contains(
                    pv,
                ),
    {
        self.registry.list()
    }
}

} // verus!

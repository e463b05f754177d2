use vstd::prelude::*;

use crate::error::RobloxError;
use crate::json::Json;
use std::collections::HashMap;
use vstd::string::StringSliceAdditionalSpecFns;

verus! {

broadcast use vstd::std_specs::hash::group_hash_axioms;

/// `entry.group.id` of a membership entry.
#[verifier::opaque]
pub open spec fn group_id_of(entry: Json) -> Option<i64> {
    entry.at("group"@).at("id"@).int_value()
}

/// `entry.role.rank` of a membership entry.
#[verifier::opaque]
pub open spec fn role_rank_of(entry: Json) -> Option<i64> {
    entry.at("role"@).at("rank"@).int_value()
}

/// A membership entry carries both integers that a rank map needs.
pub open spec fn is_membership(entry: Json) -> bool {
    group_id_of(entry) is Some && role_rank_of(entry) is Some
}

/// The map built by inserting `group.id -> role.rank` for each entry in order.
pub open spec fn rank_map(entries: Seq<Json>) -> Map<i64, i64>
    decreases entries.len(),
{
    if entries.len() == 0 {
        Map::empty()
    } else {
        let last = entries.last();
        rank_map(entries.drop_last()).insert(
            group_id_of(last)->Some_0,
            role_rank_of(last)->Some_0,
        )
    }
}

/// The rank map that a user-roles response describes: `None` where `data` is
/// missing, is not an array, or holds an entry that is no membership.
pub open spec fn user_roles_of(body: Json) -> Option<Map<i64, i64>> {
    match body.at("data"@).items() {
        Some(entries) => if forall|i: int| 0 <= i < entries.len() ==> is_membership(entries[i]) {
            Some(rank_map(entries))
        } else {
            None
        },
        None => None,
    }
}

/// Builds the map from group id to the user's rank in that group out of a
/// user-roles response. A later entry for the same group replaces an earlier one.
pub fn user_roles(body: &Json) -> (r: Result<HashMap<i64, i64>, RobloxError>)
    ensures
        (match user_roles_of(*body) {
            Some(m) => r is Ok && r->Ok_0@ == m,
            None => r matches Err(RobloxError::MissingField),
        }),
{
    let data = match body.get("data") {
        Some(d) => d,
        None => return Err(RobloxError::MissingField),
    };
    let items = match data.as_array() {
        Some(a) => a,
        None => return Err(RobloxError::MissingField),
    };
    let mut ranks: HashMap<i64, i64> = HashMap::new();
    let mut i: usize = 0;
    while i < items.len()
        invariant
            0 <= i <= items@.len(),
            body.at("data"@).items() == Some(items@),
            forall|j: int| 0 <= j < i ==> is_membership(#[trigger] items@[j]),
            ranks@ == rank_map(items@.subrange(0, i as int)),
        decreases items.len() - i,
    {
        proof {
            reveal(group_id_of);
            reveal(role_rank_of);
        }
        let group = items[i].int_at("group", "id");
        let rank = items[i].int_at("role", "rank");
        match (group, rank) {
            (Some(g), Some(k)) => {
                ranks.insert(g, k);
            },
            _ => return Err(RobloxError::MissingField),
        }
        assert(items@.subrange(0, i + 1).drop_last() =~= items@.subrange(0, i as int));
        i = i + 1;
    }
    assert(items@.subrange(0, items@.len() as int) =~= items@);
    Ok(ranks)
}

/// The role list of a group-roles response, where `roles` is an array.
pub open spec fn roles_of(body: Json) -> Option<Seq<Json>> {
    body.at("roles"@).items()
}

/// A role's `rank`, with a missing or non-integer rank read as zero.
pub open spec fn rank_or_zero(role: Json) -> i64 {
    match role.at("rank"@).int_value() {
        Some(n) => n,
        None => 0,
    }
}

/// The first role, in list order, whose rank (defaulted to zero) is `rank_id`.
pub open spec fn first_with_rank(roles: Seq<Json>, rank_id: i64) -> Option<Json>
    decreases roles.len(),
{
    if roles.len() == 0 {
        None
    } else if rank_or_zero(roles[0]) == rank_id {
        Some(roles[0])
    } else {
        first_with_rank(roles.drop_first(), rank_id)
    }
}

/// The role that a group-roles response gives for `rank_id`.
pub open spec fn group_rank_of(body: Json, rank_id: i64) -> Option<Json> {
    match roles_of(body) {
        Some(roles) => first_with_rank(roles, rank_id),
        None => None,
    }
}

/// Picks out of a group-roles response the first role whose rank is `rank_id`,
/// handing the record back as it came. A role without an integer rank counts as
/// rank zero.
pub fn group_rank(body: Json, rank_id: i64) -> (r: Option<Json>)
    ensures
        r == group_rank_of(body, rank_id),
{
    let roles = match body.take("roles") {
        Some(v) => v,
        None => return None,
    };
    let mut items = match roles.into_array() {
        Some(a) => a,
        None => return None,
    };
    let ghost all = items@;
    let mut i: usize = 0;
    assert(all.subrange(0, all.len() as int) =~= all);
    while i < items.len()
        invariant
            0 <= i <= items@.len(),
            items@ == all,
            roles_of(body) == Some(all),
            first_with_rank(all, rank_id) == first_with_rank(
                all.subrange(i as int, all.len() as int),
                rank_id,
            ),
        decreases items.len() - i,
    {
        let ghost rest = all.subrange(i as int, all.len() as int);
        assert(rest.drop_first() =~= all.subrange(i + 1, all.len() as int));
        let rank: i64 = match items[i].get("rank") {
            Some(v) => match v.as_i64() {
                Some(n) => n,
                None => 0,
            },
            None => 0,
        };
        if rank == rank_id {
            let role = items.remove(i);
            return Some(role);
        }
        i = i + 1;
    }
    None
}

/// A role's `rank` lies in `[min_rank, max_rank]`.
pub open spec fn rank_between(role: Json, min_rank: i64, max_rank: i64) -> bool {
    match role.at("rank"@).int_value() {
        Some(n) => min_rank <= n <= max_rank,
        None => false,
    }
}

/// Every role carries an integer `rank`.
pub open spec fn all_ranked(roles: Seq<Json>) -> bool {
    forall|i: int| 0 <= i < roles.len() ==> (#[trigger] roles[i]).at("rank"@).int_value() is Some
}

/// The roles whose rank lies in `[min_rank, max_rank]`, in list order.
pub open spec fn roles_between(roles: Seq<Json>, min_rank: i64, max_rank: i64) -> Seq<Json>
    decreases roles.len(),
{
    if roles.len() == 0 {
        Seq::empty()
    } else {
        let kept = roles_between(roles.drop_last(), min_rank, max_rank);
        if rank_between(roles.last(), min_rank, max_rank) {
            kept.push(roles.last())
        } else {
            kept
        }
    }
}

/// Picks out of a group-roles response every role whose rank lies in
/// `[min_rank, max_rank]`, in list order, handing each record back as it came.
/// A response without a role list gives no roles; a role without an integer
/// rank is an error.
pub fn group_ranks(body: Json, min_rank: i64, max_rank: i64) -> (r: Result<Vec<Json>, RobloxError>)
    ensures
        (match roles_of(body) {
            Some(roles) => if all_ranked(roles) {
                r is Ok && r->Ok_0@ == roles_between(roles, min_rank, max_rank)
            } else {
                r matches Err(RobloxError::MissingField)
            },
            None => r is Ok && r->Ok_0@.len() == 0,
        }),
{
    let roles = match body.take("roles") {
        Some(v) => v,
        None => return Ok(Vec::new()),
    };
    let mut rest = match roles.into_array() {
        Some(a) => a,
        None => return Ok(Vec::new()),
    };
    let ghost all = rest@;
    let total = rest.len();
    let mut kept: Vec<Json> = Vec::new();
    let mut i: usize = 0;
    assert(all.subrange(0, 0) =~= Seq::<Json>::empty());
    assert(all.subrange(0, all.len() as int) =~= all);
    while i < total
        invariant
            0 <= i <= all.len() == total,
            rest@ == all.subrange(i as int, all.len() as int),
            roles_of(body) == Some(all),
            forall|j: int| 0 <= j < i ==> (#[trigger] all[j]).at("rank"@).int_value() is Some,
            kept@ == roles_between(all.subrange(0, i as int), min_rank, max_rank),
        decreases total - i,
    {
        let role = rest.remove(0);
        let rank = match role.get("rank") {
            Some(v) => match v.as_i64() {
                Some(n) => n,
                None => return Err(RobloxError::MissingField),
            },
            None => return Err(RobloxError::MissingField),
        };
        assert(all.subrange(0, i + 1).drop_last() =~= all.subrange(0, i as int));
        assert(all.subrange(0, i + 1).last() == role);
        if min_rank <= rank && rank <= max_rank {
            kept.push(role);
        }
        assert(rest@ =~= all.subrange(i + 1, all.len() as int));
        i = i + 1;
    }
    Ok(kept)
}

/// Reads `Username` out of a profile response.
pub fn username(body: &Json) -> (r: Result<String, RobloxError>)
    ensures
        (match body.at("Username"@).text() {
            Some(name) => r is Ok && r->Ok_0@ == name,
            None => r matches Err(RobloxError::MissingField),
        }),
{
    match body.get("Username") {
        Some(v) => match v.as_str() {
            Some(name) => Ok(name.clone()),
            None => Err(RobloxError::MissingField),
        },
        None => Err(RobloxError::MissingField),
    }
}

/// Reads `Id` out of a lookup-by-name response; its absence means no such user.
pub fn user_id(body: &Json) -> (r: Option<i64>)
    ensures
        r == body.at("Id"@).int_value(),
{
    match body.get("Id") {
        Some(v) => v.as_i64(),
        None => None,
    }
}

/// Whether an inventory response lists at least one item: `data` is an array
/// with an element. A response without `data` means none.
pub fn owns_asset(body: &Json) -> (r: bool)
    ensures
        r == (match body.at("data"@).items() {
            Some(items) => items.len() > 0,
            None => false,
        }),
{
    match body.get("data") {
        Some(d) => match d.as_array() {
            Some(items) => items.len() > 0,
            None => false,
        },
        None => false,
    }
}

/// `needle` stands in `hay` starting at position `i`.
pub open spec fn occurs_at(hay: Seq<u8>, needle: Seq<u8>, i: int) -> bool {
    0 <= i && i + needle.len() <= hay.len() && hay.subrange(i, i + needle.len()) == needle
}

/// `needle` stands somewhere in `hay`.
pub open spec fn occurs_in(hay: Seq<u8>, needle: Seq<u8>) -> bool {
    exists|i: int| occurs_at(hay, needle, i)
}

/// Whether the raw profile page holds `code` as a literal, case-sensitive
/// substring. Both are compared as their UTF-8 bytes.
pub fn contains_code(page: &str, code: &str) -> (r: bool)
    ensures
        r == occurs_in(page.spec_bytes(), code.spec_bytes()),
{
    let hay = page.as_bytes();
    let needle = code.as_bytes();
    let m = needle.len();
    if m > hay.len() {
        assert forall|i: int| !occurs_at(hay@, needle@, i) by {}
        return false;
    }
    let n = hay.len();
    let last = n - m;
    let mut i: usize = 0;
    while i <= last
        invariant
            hay@ == page.spec_bytes(),
            needle@ == code.spec_bytes(),
            m == needle@.len(),
            last + m == n,
            n == hay@.len(),
            0 <= i <= last + 1,
            forall|j: int| 0 <= j < i ==> !occurs_at(hay@, needle@, j),
        decreases last + 1 - i,
    {
        let mut k: usize = 0;
        while k < m && hay[i + k] == needle[k]
            invariant
                m == needle@.len(),
                i + m <= n,
                n == hay@.len(),
                0 <= k <= m,
                forall|t: int| 0 <= t < k ==> hay@[i + t] == needle@[t],
            decreases m - k,
        {
            k = k + 1;
        }
        if k == m {
            assert(hay@.subrange(i as int, i + m) =~= needle@);
            assert(occurs_at(hay@, needle@, i as int));
            return true;
        }
        assert(hay@.subrange(i as int, i + m)[k as int] != needle@[k as int]);
        i = i + 1;
    }
    false
}

/// Over membership entries, `rank_map` has a key for each group id that occurs
/// and no other, and each group maps to the rank of its last entry.
pub proof fn lemma_rank_map_entries(entries: Seq<Json>)
    requires
        forall|i: int| 0 <= i < entries.len() ==> is_membership(#[trigger] entries[i]),
    ensures
        forall|g: i64|
            rank_map(entries).contains_key(g) <==> exists|i: int|
                0 <= i < entries.len() && #[trigger] group_id_of(entries[i]) == Some(g),
        forall|i: int|
            0 <= i < entries.len() && (forall|j: int|
                i < j < entries.len() ==> #[trigger] group_id_of(entries[j]) != group_id_of(
                    entries[i],
                )) ==> rank_map(entries)[group_id_of(entries[i])->Some_0] == role_rank_of(
                entries[i],
            )->Some_0,
    decreases entries.len(),
{
    if entries.len() > 0 {
        let init = entries.drop_last();
        let n = entries.len() - 1;
        assert forall|i: int| 0 <= i < init.len() implies is_membership(#[trigger] init[i]) by {
            assert(init[i] == entries[i]);
        }
        lemma_rank_map_entries(init);
        assert(is_membership(entries[n]));
        assert(rank_map(entries) == rank_map(init).insert(
            group_id_of(entries[n])->Some_0,
            role_rank_of(entries[n])->Some_0,
        ));
        assert forall|g: i64|
            rank_map(entries).contains_key(g) <==> exists|i: int|
                0 <= i < entries.len() && #[trigger] group_id_of(entries[i]) == Some(g) by {
            if rank_map(entries).contains_key(g) {
                if g == group_id_of(entries[n])->Some_0 {
                    assert(group_id_of(entries[n]) == Some(g));
                } else {
                    assert(rank_map(init).contains_key(g));
                    let i = choose|i: int| 0 <= i < init.len() && #[trigger] group_id_of(init[i]) == Some(g);
                    assert(init[i] == entries[i]);
                }
            }
            if exists|i: int| 0 <= i < entries.len() && #[trigger] group_id_of(entries[i]) == Some(g) {
                let i = choose|i: int| 0 <= i < entries.len() && #[trigger] group_id_of(entries[i]) == Some(g);
                if i < n {
                    assert(init[i] == entries[i]);
                    assert(group_id_of(init[i]) == Some(g));
                }
            }
        }
        assert forall|i: int|
            0 <= i < entries.len() && (forall|j: int|
                i < j < entries.len() ==> #[trigger] group_id_of(entries[j]) != group_id_of(
                    entries[i],
                )) implies rank_map(entries)[group_id_of(entries[i])->Some_0] == role_rank_of(
                entries[i],
            )->Some_0 by {
            if i < n {
                assert(init[i] == entries[i]);
                assert(group_id_of(entries[n]) != group_id_of(entries[i]));
                assert forall|j: int| i < j < init.len() implies #[trigger] group_id_of(init[j])
                    != group_id_of(init[i]) by {
                    assert(init[j] == entries[j]);
                }
            }
        }
    }
}

/// A user-roles response with well-formed entries gives exactly one map entry
/// per distinct group id, holding the rank of that group's last entry.
pub proof fn lemma_user_roles_last_wins(body: Json)
    requires
        user_roles_of(body) is Some,
    ensures
        ({
            let entries = body.at("data"@).items()->Some_0;
            let m = user_roles_of(body)->Some_0;
            &&& forall|g: i64|
                m.contains_key(g) <==> exists|i: int|
                    0 <= i < entries.len() && #[trigger] group_id_of(entries[i]) == Some(g)
            &&& forall|i: int|
                0 <= i < entries.len() && (forall|j: int|
                    i < j < entries.len() ==> #[trigger] group_id_of(entries[j]) != group_id_of(
                        entries[i],
                    )) ==> m[group_id_of(entries[i])->Some_0] == role_rank_of(entries[i])->Some_0
        }),
{
    let entries = body.at("data"@).items()->Some_0;
    assert forall|i: int| 0 <= i < entries.len() implies is_membership(#[trigger] entries[i]) by {}
    lemma_rank_map_entries(entries);
}

/// `first_with_rank` gives the element itself at the first position whose rank
/// (defaulted to zero) matches, and nothing where no position matches.
pub proof fn lemma_first_with_rank(roles: Seq<Json>, rank_id: i64)
    ensures
        (match first_with_rank(roles, rank_id) {
            Some(role) => exists|i: int|
                0 <= i < roles.len() && roles[i] == role && rank_or_zero(roles[i]) == rank_id
                    && forall|j: int| 0 <= j < i ==> rank_or_zero(#[trigger] roles[j]) != rank_id,
            None => forall|i: int| 0 <= i < roles.len() ==> rank_or_zero(#[trigger] roles[i]) != rank_id,
        }),
    decreases roles.len(),
{
    if roles.len() > 0 && rank_or_zero(roles[0]) != rank_id {
        let tail = roles.drop_first();
        lemma_first_with_rank(tail, rank_id);
        match first_with_rank(tail, rank_id) {
            Some(role) => {
                let i = choose|i: int|
                    0 <= i < tail.len() && tail[i] == role && rank_or_zero(tail[i]) == rank_id
                        && forall|j: int| 0 <= j < i ==> rank_or_zero(#[trigger] tail[j]) != rank_id;
                assert(roles[i + 1] == tail[i]);
                assert forall|j: int| 0 <= j < i + 1 implies rank_or_zero(#[trigger] roles[j]) != rank_id by {
                    if j > 0 {
                        assert(roles[j] == tail[j - 1]);
                    }
                }
            },
            None => {
                assert forall|i: int| 0 <= i < roles.len() implies rank_or_zero(#[trigger] roles[i]) != rank_id by {
                    if i > 0 {
                        assert(roles[i] == tail[i - 1]);
                    }
                }
            },
        }
    }
}

/// The role that `group_rank` returns is the record found in the role list, at
/// the first position whose rank (defaulted to zero) is `rank_id`; there is none
/// only where no role has that rank.
pub proof fn lemma_group_rank_first_match(body: Json, rank_id: i64)
    requires
        roles_of(body) is Some,
    ensures
        ({
            let roles = roles_of(body)->Some_0;
            match group_rank_of(body, rank_id) {
                Some(role) => exists|i: int|
                    0 <= i < roles.len() && roles[i] == role && rank_or_zero(roles[i]) == rank_id
                        && forall|j: int| 0 <= j < i ==> rank_or_zero(#[trigger] roles[j]) != rank_id,
                None => forall|i: int|
                    0 <= i < roles.len() ==> rank_or_zero(#[trigger] roles[i]) != rank_id,
            }
        }),
{
    lemma_first_with_rank(roles_of(body)->Some_0, rank_id);
}

/// Each role that `roles_between` keeps is a record of the list, unchanged, with
/// its rank in the band; each role of the list with its rank in the band is kept.
pub proof fn lemma_roles_between(roles: Seq<Json>, min_rank: i64, max_rank: i64)
    ensures
        forall|k: int|
            0 <= k < roles_between(roles, min_rank, max_rank).len() ==> {
                let role = #[trigger] roles_between(roles, min_rank, max_rank)[k];
                roles.contains(role) && rank_between(role, min_rank, max_rank)
            },
        forall|i: int|
            0 <= i < roles.len() && rank_between(#[trigger] roles[i], min_rank, max_rank)
                ==> roles_between(roles, min_rank, max_rank).contains(roles[i]),
    decreases roles.len(),
{
    if roles.len() > 0 {
        let init = roles.drop_last();
        let n = roles.len() - 1;
        lemma_roles_between(init, min_rank, max_rank);
        let kept = roles_between(init, min_rank, max_rank);
        let all = roles_between(roles, min_rank, max_rank);
        assert forall|k: int| 0 <= k < all.len() implies {
            let role = #[trigger] all[k];
            roles.contains(role) && rank_between(role, min_rank, max_rank)
        } by {
            if k < kept.len() {
                assert(all[k] == kept[k]);
                let j = choose|j: int| 0 <= j < init.len() && init[j] == kept[k];
                assert(roles[j] == init[j]);
            } else {
                assert(all[k] == roles[n]);
            }
        }
        assert forall|i: int|
            0 <= i < roles.len() && rank_between(#[trigger] roles[i], min_rank, max_rank)
                implies all.contains(roles[i]) by {
            if i < n {
                assert(init[i] == roles[i]);
                assert(rank_between(init[i], min_rank, max_rank));
                assert(kept.contains(init[i]));
                let k = choose|k: int| 0 <= k < kept.len() && kept[k] == init[i];
                if rank_between(roles[n], min_rank, max_rank) {
                    assert(all[k] == kept[k]);
                }
            } else {
                assert(all[all.len() - 1] == roles[n]);
            }
        }
    }
}

/// Every role that `group_ranks` returns is a record of the response's role
/// list, unchanged, with its rank in `[min_rank, max_rank]`; every role of the
/// list with its rank in that band is returned.
pub proof fn lemma_group_ranks_selection(body: Json, min_rank: i64, max_rank: i64)
    requires
        roles_of(body) is Some,
    ensures
        ({
            let roles = roles_of(body)->Some_0;
            let kept = roles_between(roles, min_rank, max_rank);
            &&& forall|k: int|
                0 <= k < kept.len() ==> roles.contains(#[trigger] kept[k]) && rank_between(
                    kept[k],
                    min_rank,
                    max_rank,
                )
            &&& forall|i: int|
                0 <= i < roles.len() && rank_between(#[trigger] roles[i], min_rank, max_rank)
                    ==> kept.contains(roles[i])
        }),
{
    lemma_roles_between(roles_of(body)->Some_0, min_rank, max_rank);
}

} // verus!

use vstd::prelude::*;
use crate::settings::SettingsStruct;
use crate::utils::http::Headers;
use crate::random::random_u64;
use crate::text::str_eq;

verus! {

/// A connected user: the connection, the address it comes from, and its id.
#[derive(Debug)]
pub struct User<W> {
    pub websocket: W,
    pub true_ip: String,
    pub id: u64,
}

/// The address of a client: the `CF-Connecting-IP` header field when the request has one,
/// otherwise the address of the connection (`local_ip`, when it could be read).
pub fn get_ip(headers: &Headers, local_ip: Option<String>) -> (ip: Option<String>)
    ensures
        headers@.dom().contains("CF-Connecting-IP"@) ==> (ip matches Some(s) && s@ == headers@["CF-Connecting-IP"@]),
        !headers@.dom().contains("CF-Connecting-IP"@) ==> ip == local_ip,
{
    match headers.get("CF-Connecting-IP") {
        Some(ip) => Some(ip.clone()),
        None => local_ip,
    }
}

/// Whether a connection from `ip` is refused as a second one from the same address: never
/// when the settings let several in, otherwise when a user from `ip` is connected.
pub fn is_multi_connecting<W>(user_vec: &Vec<User<W>>, ip_string: &String, settings: &SettingsStruct) -> (b: bool)
    ensures
        b == (!settings.ignore_multiple_connections_per_ip
            && exists|i: int| 0 <= i < user_vec@.len() && (#[trigger] user_vec@[i]).true_ip@ == ip_string@),
{
    if settings.ignore_multiple_connections_per_ip {
        return false;
    }
    let n = user_vec.len();
    for i in 0..n
        invariant
            n == user_vec@.len(),
            !settings.ignore_multiple_connections_per_ip,
            forall|j: int| 0 <= j < i ==> (#[trigger] user_vec@[j]).true_ip@ != ip_string@,
    {
        if user_vec[i].true_ip == *ip_string {
            assert(user_vec@[i as int].true_ip@ == ip_string@);
            return true;
        }
    }
    false
}

/// The address a connection comes from, when it can be told: the `CF-Connecting-IP` header
/// field, otherwise the address of the connection.
pub open spec fn known_ip(headers: Map<Seq<char>, Seq<char>>, local_ip: Option<String>) -> Option<Seq<char>> {
    if headers.dom().contains("CF-Connecting-IP"@) {
        Some(headers["CF-Connecting-IP"@])
    } else {
        match local_ip {
            Some(l) => Some(l@),
            None => None,
        }
    }
}

/// Whether a connection from `ip` is refused as a second one from the same address.
pub open spec fn refused_as_duplicate<W>(users: Seq<User<W>>, ip: Seq<char>, settings: SettingsStruct) -> bool {
    !settings.ignore_multiple_connections_per_ip
        && exists|i: int| 0 <= i < users.len() && (#[trigger] users[i]).true_ip@ == ip
}

/// The address under which a new connection is let in: its address, when that can be told
/// and is not refused as a second connection from the same address; otherwise nothing.
pub fn admitted_ip<W>(headers: &Headers, local_ip: Option<String>, users: &Vec<User<W>>, settings: &SettingsStruct)
    -> (r: Option<String>)
    ensures
        r is None <==> (known_ip(headers@, local_ip) is None
            || refused_as_duplicate(users@, known_ip(headers@, local_ip)->0, *settings)),
        r matches Some(s) ==> known_ip(headers@, local_ip) == Some(s@),
{
    match get_ip(headers, local_ip) {
        Some(ip) => {
            if is_multi_connecting(users, &ip, settings) {
                None
            } else {
                Some(ip)
            }
        }
        None => None,
    }
}

/// Whether a read error, by its text, says that the connection has closed.
pub fn is_closed_connection(error_text: &str) -> (b: bool)
    ensures
        b == (error_text@ == "Trying to work with closed connection"@),
{
    str_eq(error_text, "Trying to work with closed connection")
}

/// Registers a user with a new random id, and gives the id.
pub fn add_user<W>(users: &mut Vec<User<W>>, websocket: W, ip: String) -> (id: u64)
    ensures
        final(users)@ == old(users)@.push(User { websocket, true_ip: ip, id }),
{
    let id = random_u64();
    users.push(User { websocket, true_ip: ip, id });
    id
}

/// The first user with `id`, to change in place.
pub fn get_user_by_id<W>(users: &mut Vec<User<W>>, id: u64) -> (r: Option<&mut User<W>>)
    ensures
        r is Some <==> exists|i: int| 0 <= i < old(users)@.len() && (#[trigger] old(users)@[i]).id == id,
        r matches Some(u) ==> exists|i: int|
            0 <= i < old(users)@.len() && (#[trigger] old(users)@[i]).id == id
            && (forall|j: int| 0 <= j < i ==> (#[trigger] old(users)@[j]).id != id)
            && *u == old(users)@[i] && final(users)@ == old(users)@.update(i, *final(u)),
        r is None ==> final(users)@ == old(users)@,
{
    let n = users.len();
    let mut i: usize = 0;
    while i < n
        invariant
            n == users@.len(),
            users@ == old(users)@,
            i <= n,
            forall|j: int| 0 <= j < i ==> (#[trigger] users@[j]).id != id,
        decreases n - i,
    {
        if users[i].id == id {
            assert(old(users)@[i as int].id == id);
            return Some(&mut users[i]);
        }
        i = i + 1;
    }
    None
}

/// The users after `remove` of `to_delete[k] - k` for each `k` in turn.
pub open spec fn after_removals<W>(users: Seq<User<W>>, to_delete: Seq<usize>) -> Seq<User<W>>
    decreases to_delete.len(),
{
    if to_delete.len() == 0 {
        users
    } else {
        let prev = after_removals(users, to_delete.drop_last());
        prev.remove(to_delete.last() - (to_delete.len() - 1))
    }
}

/// Whether index `i` is one of `gone`.
pub open spec fn listed(gone: Seq<usize>, i: int) -> bool {
    exists|k: int| 0 <= k < gone.len() && gone[k] == i
}

/// The elements of `s` whose index is not listed in `gone`, in their order.
pub open spec fn without_indices<T>(s: Seq<T>, gone: Seq<usize>) -> Seq<T>
    decreases s.len(),
{
    if s.len() == 0 {
        s
    } else {
        let front = without_indices(s.drop_last(), gone);
        if listed(gone, s.len() - 1) { front } else { front.push(s.last()) }
    }
}

/// Each index is greater than the one before it.
pub open spec fn strictly_increasing(s: Seq<usize>) -> bool {
    forall|i: int, j: int| 0 <= i < j < s.len() ==> s[i] < s[j]
}

/// Removing the closed users takes away one user per index given.
pub proof fn removals_shrink_by_count<W>(users: Seq<User<W>>, to_delete: Seq<usize>)
    requires
        forall|k: int| 0 <= k < to_delete.len() ==> k <= #[trigger] to_delete[k] < users.len(),
    ensures
        after_removals(users, to_delete).len() == users.len() - to_delete.len(),
    decreases to_delete.len(),
{
    if to_delete.len() > 0 {
        removals_shrink_by_count(users, to_delete.drop_last());
    }
}

/// Which indices are listed matters only below the length.
proof fn lemma_without_same_listed<T>(s: Seq<T>, a: Seq<usize>, b: Seq<usize>)
    requires
        forall|i: int| #![trigger listed(a, i)] #![trigger listed(b, i)]
            0 <= i < s.len() ==> (listed(a, i) <==> listed(b, i)),
    ensures
        without_indices(s, a) == without_indices(s, b),
    decreases s.len(),
{
    if s.len() > 0 {
        lemma_without_same_listed(s.drop_last(), a, b);
    }
}

/// With every listed index below `m`, the elements from `m` on all stay.
proof fn lemma_without_split<T>(s: Seq<T>, gone: Seq<usize>, m: int)
    requires
        0 <= m <= s.len(),
        forall|k: int| 0 <= k < gone.len() ==> #[trigger] gone[k] < m,
    ensures
        without_indices(s, gone) == without_indices(s.take(m), gone) + s.skip(m),
    decreases s.len(),
{
    if s.len() == m {
        assert(s.take(m) =~= s);
        assert(s.skip(m) =~= Seq::<T>::empty());
    } else {
        lemma_without_split(s.drop_last(), gone, m);
        assert(!listed(gone, s.len() - 1));
        assert(s.drop_last().take(m) =~= s.take(m));
        assert(s.drop_last().skip(m).push(s.last()) =~= s.skip(m));
    }
}

/// Listing `n` increasing indices below the length takes `n` elements away.
proof fn lemma_without_len<T>(s: Seq<T>, gone: Seq<usize>)
    requires
        strictly_increasing(gone),
        forall|k: int| 0 <= k < gone.len() ==> #[trigger] gone[k] < s.len(),
    ensures
        without_indices(s, gone).len() == s.len() - gone.len(),
    decreases s.len(),
{
    if s.len() == 0 {
        if gone.len() > 0 {
            assert(gone[0] < s.len());
        }
    } else {
        let m = s.len() - 1;
        if listed(gone, m) {
            let i = choose|i: int| 0 <= i < gone.len() && gone[i] == m;
            if i < gone.len() - 1 {
                assert(gone[i] < gone[gone.len() - 1]);
            }
            let rest = gone.drop_last();
            assert forall|k: int| 0 <= k < rest.len() implies #[trigger] rest[k] < s.drop_last().len() by {
                assert(gone[k] < gone[gone.len() - 1]);
            }
            assert forall|t: int| #![trigger listed(gone, t)] #![trigger listed(rest, t)]
                0 <= t < s.drop_last().len() implies (listed(gone, t) <==> listed(rest, t)) by {
                if listed(gone, t) {
                    let j = choose|j: int| 0 <= j < gone.len() && gone[j] == t;
                    assert(j != gone.len() - 1);
                    assert(rest[j] == t);
                }
                if listed(rest, t) {
                    let j = choose|j: int| 0 <= j < rest.len() && rest[j] == t;
                    assert(gone[j] == t);
                }
            }
            lemma_without_same_listed(s.drop_last(), gone, rest);
            lemma_without_len(s.drop_last(), rest);
        } else {
            assert forall|k: int| 0 <= k < gone.len() implies #[trigger] gone[k] < s.drop_last().len() by {
                assert(gone[k] != m);
            }
            lemma_without_len(s.drop_last(), gone);
        }
    }
}

/// Increasing indices are at least their position.
proof fn lemma_increasing_at_least_position(gone: Seq<usize>, k: int)
    requires
        strictly_increasing(gone),
        0 <= k < gone.len(),
    ensures
        k <= gone[k],
    decreases k,
{
    if k > 0 {
        lemma_increasing_at_least_position(gone, k - 1);
        assert(gone[k - 1] < gone[k]);
    }
}

/// Removing the users at increasing indices (as one pass over the users collects them)
/// takes away exactly those users and keeps the others in their order.
pub proof fn removals_take_away_exactly_the_listed<W>(users: Seq<User<W>>, to_delete: Seq<usize>)
    requires
        strictly_increasing(to_delete),
        forall|k: int| 0 <= k < to_delete.len() ==> #[trigger] to_delete[k] < users.len(),
    ensures
        forall|k: int| 0 <= k < to_delete.len() ==> k <= #[trigger] to_delete[k],
        after_removals(users, to_delete) == without_indices(users, to_delete),
    decreases to_delete.len(),
{
    assert forall|k: int| 0 <= k < to_delete.len() implies k <= #[trigger] to_delete[k] by {
        lemma_increasing_at_least_position(to_delete, k);
    }
    if to_delete.len() == 0 {
        assert(without_indices(users, to_delete) =~= users) by {
            lemma_without_split(users, to_delete, 0);
            assert(users.take(0) =~= Seq::<User<W>>::empty());
            assert(users.skip(0) =~= users);
        }
    } else {
        let n = to_delete.len();
        let d = to_delete.last();
        let rest = to_delete.drop_last();
        assert forall|k: int| 0 <= k < rest.len() implies #[trigger] rest[k] < d by {
            assert(to_delete[k] < to_delete[n - 1]);
        }
        removals_take_away_exactly_the_listed(users, rest);
        let front = without_indices(users.take(d as int), rest);
        lemma_without_split(users, rest, d as int);
        lemma_without_split(users, to_delete, d + 1);
        assert forall|k: int| 0 <= k < rest.len() implies #[trigger] rest[k] < users.take(d as int).len() by {}
        lemma_without_len(users.take(d as int), rest);
        assert(users.take(d + 1).drop_last() =~= users.take(d as int));
        assert(to_delete[n - 1] == d);
        assert(listed(to_delete, d as int));
        assert forall|t: int| #![trigger listed(to_delete, t)] #![trigger listed(rest, t)]
            0 <= t < users.take(d as int).len() implies (listed(to_delete, t) <==> listed(rest, t)) by {
            if listed(to_delete, t) {
                let j = choose|j: int| 0 <= j < to_delete.len() && to_delete[j] == t;
                assert(j != n - 1);
                assert(rest[j] == t);
            }
            if listed(rest, t) {
                let j = choose|j: int| 0 <= j < rest.len() && rest[j] == t;
                assert(to_delete[j] == t);
            }
        }
        lemma_without_same_listed(users.take(d as int), to_delete, rest);
        assert((front + users.skip(d as int)).remove(front.len() as int) =~= front + users.skip(d + 1));
    }
}

/// Removes the users whose connections closed: for each `k`, the user at
/// `to_delete[k] - k` is removed. The indices are those of the closed users in the list as
/// it was, collected in one pass; each has moved down by the number removed before it, so
/// exactly the closed users go (see `removals_take_away_exactly_the_listed`). The removal
/// keeps the other users in their order. That matters: taking a user out by moving the last
/// one into its place (`swap_remove`) would break the count of places moved, and with
/// neighbouring closed users it takes out an open user and keeps a closed one.
pub fn remove_closed_users<W>(users: &mut Vec<User<W>>, to_delete: &Vec<usize>)
    requires
        forall|k: int| 0 <= k < to_delete@.len() ==> k <= #[trigger] to_delete@[k] < old(users)@.len(),
    ensures
        final(users)@ == after_removals(old(users)@, to_delete@),
{
    let ghost start = users@;
    let m = to_delete.len();
    for k in 0..m
        invariant
            m == to_delete@.len(),
            forall|t: int| 0 <= t < to_delete@.len() ==> t <= #[trigger] to_delete@[t] < start.len(),
            users@ == after_removals(start, to_delete@.take(k as int)),
    {
        proof {
            assert(to_delete@.take(k + 1).drop_last() =~= to_delete@.take(k as int));
            assert forall|t: int| 0 <= t < to_delete@.take(k as int).len() implies t <= #[trigger] to_delete@.take(k as int)[t] < start.len() by {
                assert(to_delete@.take(k as int)[t] == to_delete@[t]);
            }
            removals_shrink_by_count(start, to_delete@.take(k as int));
        }
        let d = to_delete[k];
        users.remove(d - k);
    }
    assert(to_delete@.take(m as int) =~= to_delete@);
}

} // verus!

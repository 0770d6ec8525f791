//! Saved connection profiles, without passwords.
use vstd::prelude::*;
use crate::text::owned;
use crate::engine::order::{bytes_leq, text_leq};

verus! {

/// Where and as whom to connect.
#[derive(Clone, Debug)]
pub struct ConnectionProfile {
    pub host: String,
    pub port: u16,
    pub database: String,
    pub user: String,
    pub sslmode: String,
}

impl Default for ConnectionProfile {
    fn default() -> (r: Self)
        ensures
            r.host@ == "localhost"@,
            r.port == 5432,
            r.database@ == "postgres"@,
            r.user@ == "postgres"@,
            r.sslmode@ == "prefer"@,
    {
        ConnectionProfile {
            host: owned("localhost"),
            port: 5432,
            database: owned("postgres"),
            user: owned("postgres"),
            sslmode: owned("prefer"),
        }
    }
}

/// A profile with the same fields.
pub fn copy_profile(p: &ConnectionProfile) -> (r: ConnectionProfile)
    ensures
        r == *p,
{
    ConnectionProfile {
        host: p.host.clone(),
        port: p.port,
        database: p.database.clone(),
        user: p.user.clone(),
        sslmode: p.sslmode.clone(),
    }
}

/// The profiles by name, each name once, kept in the order of their names.
#[derive(Debug)]
pub struct AppConfig {
    profiles: Vec<(String, ConnectionProfile)>,
}

/// A position in `v` of the profile named `k`.
pub open spec fn name_index(v: Seq<(String, ConnectionProfile)>, k: Seq<char>) -> int {
    choose|i: int| 0 <= i < v.len() && v[i].0@ == k
}

/// The profile names of `v`.
pub open spec fn profile_names(v: Seq<(String, ConnectionProfile)>) -> Seq<Seq<char>> {
    v.map_values(|e: (String, ConnectionProfile)| e.0@)
}

/// Whether the names `ns` come in the order of their UTF-8 bytes, as `String` orders them.
pub open spec fn names_in_order(ns: Seq<Seq<char>>) -> bool {
    forall|i: int, j: int| #![trigger ns[i], ns[j]] 0 <= i < j < ns.len() ==> text_leq(ns[i], ns[j])
}

/// The text order is total, antisymmetric and transitive.
proof fn lemma_text_order(a: Seq<char>, b: Seq<char>, c: Seq<char>)
    ensures
        text_leq(a, b) || text_leq(b, a),
        text_leq(a, b) && text_leq(b, a) ==> a == b,
        text_leq(a, b) && text_leq(b, c) ==> text_leq(a, c),
{
    crate::engine::order::lemma_bytes_leq_total(
        vstd::utf8::encode_utf8(a),
        vstd::utf8::encode_utf8(b),
        vstd::utf8::encode_utf8(c),
    );
    if text_leq(a, b) && text_leq(b, a) {
        vstd::utf8::encode_utf8_decode_utf8(a);
        vstd::utf8::encode_utf8_decode_utf8(b);
    }
}

/// Whether `a` comes before `b` or equals it, by their UTF-8 bytes.
fn text_at_most(a: &str, b: &str) -> (r: bool)
    ensures
        r == text_leq(a@, b@),
{
    let x = a.as_bytes();
    let y = b.as_bytes();
    let mut i: usize = 0;
    proof {
        assert(x@.skip(0) =~= x@);
        assert(y@.skip(0) =~= y@);
    }
    while i < x.len() && i < y.len() && x[i] == y[i]
        invariant
            i <= x@.len(),
            i <= y@.len(),
            x@ == vstd::utf8::encode_utf8(a@),
            y@ == vstd::utf8::encode_utf8(b@),
            bytes_leq(x@, y@) == bytes_leq(x@.skip(i as int), y@.skip(i as int)),
        decreases x@.len() - i,
    {
        proof {
            assert(x@.skip(i as int).drop_first() =~= x@.skip(i + 1));
            assert(y@.skip(i as int).drop_first() =~= y@.skip(i + 1));
        }
        i = i + 1;
    }
    if i == x.len() {
        true
    } else if i == y.len() {
        false
    } else {
        x[i] < y[i]
    }
}

impl AppConfig {
    /// Each name occurs once, and the names come in order.
    pub closed spec fn inv(&self) -> bool {
        &&& profile_names(self.profiles@).no_duplicates()
        &&& names_in_order(profile_names(self.profiles@))
    }

    /// The profiles by name.
    pub closed spec fn view(&self) -> Map<Seq<char>, ConnectionProfile> {
        Map::new(
            |k: Seq<char>| profile_names(self.profiles@).contains(k),
            |k: Seq<char>| self.profiles@[name_index(self.profiles@, k)].1,
        )
    }

    /// No profiles.
    pub fn new() -> (r: Self)
        ensures
            r.inv(),
            r.view() == Map::<Seq<char>, ConnectionProfile>::empty(),
    {
        let r = AppConfig { profiles: Vec::new() };
        assert(r.view() =~= Map::<Seq<char>, ConnectionProfile>::empty());
        r
    }

    /// The position of the profile named `name`.
    fn position(&self, name: &str) -> (r: Option<usize>)
        requires
            self.inv(),
        ensures
            match r {
                Some(i) => i < self.profiles@.len() && self.profiles@[i as int].0@ == name@,
                None => !profile_names(self.profiles@).contains(name@),
            },
    {
        let target = owned(name);
        let mut i: usize = 0;
        while i < self.profiles.len()
            invariant
                i <= self.profiles@.len(),
                target@ == name@,
                forall|j: int| 0 <= j < i ==> self.profiles@[j].0@ != name@,
            decreases self.profiles@.len() - i,
        {
            if self.profiles[i].0 == target {
                return Some(i);
            }
            i = i + 1;
        }
        proof {
            if profile_names(self.profiles@).contains(name@) {
                let j = choose|j: int| 0 <= j < self.profiles@.len() && profile_names(self.profiles@)[j] == name@;
                assert(self.profiles@[j].0@ == name@);
            }
        }
        None
    }

    /// The profile named `name`.
    pub fn get(&self, name: &str) -> (r: Option<ConnectionProfile>)
        requires
            self.inv(),
        ensures
            match r {
                Some(p) => self.view().contains_key(name@) && p == self.view()[name@],
                None => !self.view().contains_key(name@),
            },
    {
        match self.position(name) {
            Some(i) => {
                proof {
                    let c = name_index(self.profiles@, name@);
                    assert(profile_names(self.profiles@)[c] == profile_names(self.profiles@)[i as int]);
                    assert(profile_names(self.profiles@).contains(name@));
                }
                Some(copy_profile(&self.profiles[i].1))
            },
            None => None,
        }
    }

    /// Saves `profile` under `name`, replacing a profile of that name.
    pub fn insert(&mut self, name: String, profile: ConnectionProfile)
        requires
            old(self).inv(),
        ensures
            final(self).inv(),
            final(self).view() == old(self).view().insert(name@, profile),
    {
        let ghost before = self.profiles@;
        let ghost key = name@;
        match self.position(name.as_str()) {
            Some(i) => {
                self.profiles.set(i, (name, profile));
                proof {
                    assert(profile_names(self.profiles@) =~= profile_names(before));
                    assert(profile_names(before)[i as int] == key);
                    assert forall|k: Seq<char>| #[trigger] self.view().contains_key(k) <==> old(self).view().insert(
                        key,
                        profile,
                    ).contains_key(k) by {}
                    assert forall|k: Seq<char>| #[trigger] self.view().contains_key(k) implies self.view()[k]
                        == old(self).view().insert(key, profile)[k] by {
                        let c = name_index(self.profiles@, k);
                        assert(profile_names(self.profiles@)[c] == k);
                        if k == key {
                            assert(profile_names(self.profiles@)[i as int] == k);
                        } else {
                            let d = name_index(before, k);
                            assert(profile_names(before)[d] == k);
                        }
                    }
                    assert(self.view() =~= old(self).view().insert(key, profile));
                }
            },
            None => {
                let mut p: usize = 0;
                while p < self.profiles.len() && text_at_most(self.profiles[p].0.as_str(), name.as_str())
                    invariant
                        p <= self.profiles@.len(),
                        self.profiles@ == before,
                        key == name@,
                        forall|j: int| 0 <= j < p ==> text_leq(#[trigger] profile_names(before)[j], key),
                    decreases self.profiles@.len() - p,
                {
                    p = p + 1;
                }
                self.profiles.insert(p, (name, profile));
                proof {
                    let n = p;
                    let ns = profile_names(before);
                    assert(profile_names(self.profiles@) =~= ns.insert(p as int, key));
                    assert(!ns.contains(key));
                    assert forall|i: int, j: int|
                        #![trigger profile_names(self.profiles@)[i], profile_names(self.profiles@)[j]]
                        0 <= i < j < self.profiles@.len() implies text_leq(profile_names(self.profiles@)[i], profile_names(self.profiles@)[j]) by {
                        let ms = profile_names(self.profiles@);
                        if i < p && j < p {
                            assert(ms[i] == ns[i] && ms[j] == ns[j]);
                        } else if i < p && j == p {
                            assert(ms[i] == ns[i]);
                        } else if i < p {
                            assert(ms[i] == ns[i] && ms[j] == ns[j - 1]);
                        } else if i == p {
                            assert(ms[j] == ns[j - 1]);
                            assert(!text_leq(ns[p as int], key));
                            lemma_text_order(ns[p as int], key, key);
                            if j - 1 > p {
                                lemma_text_order(key, ns[p as int], ns[j - 1]);
                            }
                        } else {
                            assert(ms[i] == ns[i - 1] && ms[j] == ns[j - 1]);
                        }
                    }
                    assert(profile_names(self.profiles@).no_duplicates()) by {
                        let ms = profile_names(self.profiles@);
                        assert forall|i: int, j: int| 0 <= i < ms.len() && 0 <= j < ms.len() && i != j implies ms[i] != ms[j] by {
                            if i != p && j != p {
                                let a = if i < p { i } else { i - 1 };
                                let b = if j < p { j } else { j - 1 };
                                assert(ms[i] == ns[a] && ms[j] == ns[b]);
                            } else if i == p {
                                let b = if j < p { j } else { j - 1 };
                                assert(ms[j] == ns[b]);
                            } else {
                                let a = if i < p { i } else { i - 1 };
                                assert(ms[i] == ns[a]);
                            }
                        }
                    }
                    assert forall|k: Seq<char>| #[trigger] self.view().contains_key(k) <==> old(self).view().insert(
                        key,
                        profile,
                    ).contains_key(k) by {
                        let ms = profile_names(self.profiles@);
                        if ns.contains(k) {
                            let d = choose|j: int| 0 <= j < before.len() && ns[j] == k;
                            let e = if d < p { d } else { d + 1 };
                            assert(ms[e] == k);
                        }
                        if k == key {
                            assert(ms[n as int] == k);
                        }
                        if ms.contains(k) && k != key {
                            let c = choose|j: int| 0 <= j < ms.len() && ms[j] == k;
                            assert(c != p);
                            let d = if c < p { c } else { c - 1 };
                            assert(ns[d] == k);
                        }
                    }
                    assert forall|k: Seq<char>| #[trigger] self.view().contains_key(k) implies self.view()[k]
                        == old(self).view().insert(key, profile)[k] by {
                        let ms = profile_names(self.profiles@);
                        let c = name_index(self.profiles@, k);
                        assert(ms[c] == k);
                        if k == key {
                            assert(ms[n as int] == k);
                            if c != p {
                                assert(ms[c] != ms[n as int]);
                            }
                        } else {
                            let d = name_index(before, k);
                            assert(ns.contains(k)) by {
                                assert(c != p);
                                let d2 = if c < p { c } else { c - 1 };
                                assert(ns[d2] == k);
                            }
                            assert(ns[d] == k);
                            let e = if d < p { d } else { d + 1 };
                            assert(ms[e] == k);
                            if c != e {
                                assert(ms[c] != ms[e]);
                            }
                            assert(self.profiles@[e] == before[d]);
                        }
                    }
                    assert(self.view() =~= old(self).view().insert(key, profile));
                }
            },
        }
    }

    /// Removes the profile named `name`; gives whether there was one.
    pub fn remove(&mut self, name: &str) -> (r: bool)
        requires
            old(self).inv(),
        ensures
            final(self).inv(),
            r == old(self).view().contains_key(name@),
            final(self).view() == old(self).view().remove(name@),
    {
        let ghost before = self.profiles@;
        match self.position(name) {
            Some(i) => {
                self.profiles.remove(i);
                proof {
                    assert(profile_names(self.profiles@) =~= profile_names(before).remove(i as int));
                    assert(profile_names(before)[i as int] == name@);
                    assert forall|k: Seq<char>| #[trigger] self.view().contains_key(k) <==> old(self).view().remove(
                        name@,
                    ).contains_key(k) by {
                        if profile_names(before).contains(k) && k != name@ {
                            let d = choose|j: int| 0 <= j < before.len() && profile_names(before)[j] == k;
                            if d < i {
                                assert(profile_names(self.profiles@)[d] == k);
                            } else {
                                assert(d != i);
                                assert(profile_names(self.profiles@)[d - 1] == k);
                            }
                        }
                        if profile_names(self.profiles@).contains(k) {
                            let d = choose|j: int| 0 <= j < self.profiles@.len() && profile_names(self.profiles@)[j] == k;
                            if d < i {
                                assert(profile_names(before)[d] == k);
                                assert(d != i);
                            } else {
                                assert(profile_names(before)[d + 1] == k);
                                assert(d + 1 != i);
                            }
                        }
                    }
                    assert forall|k: Seq<char>| #[trigger] self.view().contains_key(k) implies self.view()[k]
                        == old(self).view()[k] by {
                        let c = name_index(self.profiles@, k);
                        let d = name_index(before, k);
                        assert(profile_names(self.profiles@)[c] == k);
                        assert(profile_names(before)[d] == k);
                        if c < i {
                            assert(profile_names(before)[c] == k);
                        } else {
                            assert(profile_names(before)[c + 1] == k);
                        }
                    }
                    assert(self.view() =~= old(self).view().remove(name@));
                }
                true
            },
            None => {
                proof {
                    assert(self.view() =~= old(self).view().remove(name@));
                }
                false
            },
        }
    }

    /// The names and profiles, in the order of the names.
    pub fn entries(&self) -> (r: Vec<(String, ConnectionProfile)>)
        requires
            self.inv(),
        ensures
            profile_names(r@).no_duplicates(),
            names_in_order(profile_names(r@)),
            forall|i: int| 0 <= i < r@.len() ==> self.view().contains_key(#[trigger] r@[i].0@) && self.view()[r@[i].0@] == r@[i].1,
            forall|k: Seq<char>| self.view().contains_key(k) ==> #[trigger] profile_names(r@).contains(k),
    {
        let mut out: Vec<(String, ConnectionProfile)> = Vec::new();
        let mut i: usize = 0;
        while i < self.profiles.len()
            invariant
                i <= self.profiles@.len(),
                self.inv(),
                out@.len() == i,
                forall|j: int| 0 <= j < i ==> #[trigger] out@[j] == self.profiles@[j],
            decreases self.profiles@.len() - i,
        {
            out.push((self.profiles[i].0.clone(), copy_profile(&self.profiles[i].1)));
            i = i + 1;
        }
        proof {
            assert(out@ =~= self.profiles@);
            assert forall|i: int| 0 <= i < out@.len() implies self.view().contains_key(#[trigger] out@[i].0@)
                && self.view()[out@[i].0@] == out@[i].1 by {
                let k = out@[i].0@;
                assert(out@[i] == self.profiles@[i]);
                assert(profile_names(self.profiles@)[i] == k);
                assert(profile_names(self.profiles@).contains(k));
                let c = name_index(self.profiles@, k);
                assert(profile_names(self.profiles@)[c] == k);
                if c != i {
                    assert(profile_names(self.profiles@)[c] != profile_names(self.profiles@)[i]);
                }
            }
        }
        out
    }
}

/// A profile saved under a name is what a read of that name gives back, and the profiles of
/// other names are left as they were.
pub proof fn lemma_saved_profile_reads_back(
    before: AppConfig,
    after: AppConfig,
    name: Seq<char>,
    profile: ConnectionProfile,
    other: Seq<char>,
)
    requires
        after.view() == before.view().insert(name, profile),
    ensures
        after.view().contains_key(name),
        after.view()[name] == profile,
        other != name ==> after.view().contains_key(other) == before.view().contains_key(other),
        other != name && before.view().contains_key(other) ==> after.view()[other] == before.view()[other],
{
}

/// After a name is removed, reading it finds nothing, and the profiles of other names are left
/// as they were.
pub proof fn lemma_removed_profile_is_gone(before: AppConfig, after: AppConfig, name: Seq<char>, other: Seq<char>)
    requires
        after.view() == before.view().remove(name),
    ensures
        !after.view().contains_key(name),
        other != name ==> after.view().contains_key(other) == before.view().contains_key(other),
        other != name && before.view().contains_key(other) ==> after.view()[other] == before.view()[other],
{
}

} // verus!

//! The profile store: for each profile name, the key file to use for each host.
//!
//! Profiles are kept in a `Vec` in the order they were first added, each with
//! its hosts in the order they were first added. Names are unique among the
//! profiles and hosts are unique within a profile, so the store reads as a map
//! from profile name to a map from host to key path.
use vstd::prelude::*;
use vstd::string::StringSliceAdditionalSpecFns;
use vstd::utf8::encode_utf8;
use crate::section::{apply, spliced};

verus! {

/// The map that a list of (key, value) pairs describes; a later pair wins over
/// an earlier one with the same key.
pub open spec fn map_of<V>(s: Seq<(Seq<char>, V)>) -> Map<Seq<char>, V>
    decreases s.len(),
{
    if s.len() == 0 {
        Map::empty()
    } else {
        map_of(s.drop_last()).insert(s.last().0, s.last().1)
    }
}

/// No two pairs share a key.
pub open spec fn unique_keys<V>(s: Seq<(Seq<char>, V)>) -> bool {
    forall|i: int, j: int| 0 <= i < j < s.len() ==> s[i].0 != s[j].0
}

pub proof fn lemma_map_of_index<V>(s: Seq<(Seq<char>, V)>, j: int)
    requires
        unique_keys(s),
        0 <= j < s.len(),
    ensures
        map_of(s).contains_key(s[j].0),
        map_of(s)[s[j].0] == s[j].1,
    decreases s.len(),
{
    if j < s.len() - 1 {
        let d = s.drop_last();
        assert(d[j] == s[j]);
        assert(s.last().0 != s[j].0);
        lemma_map_of_index(d, j);
    }
}

pub proof fn lemma_map_of_absent<V>(s: Seq<(Seq<char>, V)>, k: Seq<char>)
    requires
        forall|j: int| 0 <= j < s.len() ==> (#[trigger] s[j]).0 != k,
    ensures
        !map_of(s).contains_key(k),
    decreases s.len(),
{
    if s.len() > 0 {
        let d = s.drop_last();
        assert forall|j: int| 0 <= j < d.len() implies (#[trigger] d[j]).0 != k by {
            assert(d[j] == s[j]);
        }
        lemma_map_of_absent(d, k);
        assert(s.last() == s[s.len() - 1]);
    }
}

pub proof fn lemma_map_of_update<V>(s: Seq<(Seq<char>, V)>, j: int, v: V)
    requires
        unique_keys(s),
        0 <= j < s.len(),
    ensures
        map_of(s.update(j, (s[j].0, v))) == map_of(s).insert(s[j].0, v),
        unique_keys(s.update(j, (s[j].0, v))),
    decreases s.len(),
{
    let u = s.update(j, (s[j].0, v));
    assert(u.drop_last() =~= if j == s.len() - 1 {
        s.drop_last()
    } else {
        s.drop_last().update(j, (s[j].0, v))
    });
    if j == s.len() - 1 {
        assert(map_of(u) =~= map_of(s).insert(s[j].0, v));
    } else {
        let d = s.drop_last();
        assert(d[j] == s[j]);
        lemma_map_of_update(d, j, v);
        assert(s.last().0 != s[j].0);
        assert(u.last() == s.last());
        assert(map_of(u) =~= map_of(s).insert(s[j].0, v));
    }
}

pub proof fn lemma_map_of_push<V>(s: Seq<(Seq<char>, V)>, k: Seq<char>, v: V)
    ensures
        map_of(s.push((k, v))) == map_of(s).insert(k, v),
{
    assert(s.push((k, v)).drop_last() =~= s);
}

/// One host of a profile and the key file it uses.
pub struct HostKey {
    pub host: String,
    pub key: String,
}

/// A named profile and its hosts.
pub struct Profile {
    pub name: String,
    pub hosts: Vec<HostKey>,
}

/// The hosts of a profile as (host, key path) pairs.
pub open spec fn host_pairs(hosts: Seq<HostKey>) -> Seq<(Seq<char>, Seq<char>)> {
    hosts.map_values(|e: HostKey| (e.host@, e.key@))
}

/// The profiles as (name, host map) pairs.
pub open spec fn profile_pairs(ps: Seq<Profile>) -> Seq<(Seq<char>, Map<Seq<char>, Seq<char>>)> {
    ps.map_values(|p: Profile| (p.name@, map_of(host_pairs(p.hosts@))))
}

/// Why an operation of the store was refused.
#[derive(Debug, Clone, Copy, PartialEq, Eq, Structural)]
pub enum GakunError {
    /// The key file given to `add` does not exist.
    InvalidKeyPath,
    /// The profile, or the host under it, is not in the store.
    NotFound,
}

/// The persisted document: every profile, and when it was last saved, in
/// seconds since the Unix epoch.
pub struct Config {
    profiles: Vec<Profile>,
    updated_at: i64,
}

/// The profiles of `m` after `host` of `profile` is set to use `key`.
pub open spec fn with_entry(
    m: Map<Seq<char>, Map<Seq<char>, Seq<char>>>,
    profile: Seq<char>,
    host: Seq<char>,
    key: Seq<char>,
) -> Map<Seq<char>, Map<Seq<char>, Seq<char>>> {
    let hosts = if m.contains_key(profile) {
        m[profile]
    } else {
        Map::empty()
    };
    m.insert(profile, hosts.insert(host, key))
}

/// Whether `m` has a key path for `host` under `profile`.
pub open spec fn has_entry(
    m: Map<Seq<char>, Map<Seq<char>, Seq<char>>>,
    profile: Seq<char>,
    host: Seq<char>,
) -> bool {
    m.contains_key(profile) && m[profile].contains_key(host)
}

impl View for Config {
    type V = Map<Seq<char>, Map<Seq<char>, Seq<char>>>;

    closed spec fn view(&self) -> Self::V {
        map_of(profile_pairs(self.profiles@))
    }
}

impl Config {
    /// Names are unique among the profiles, and hosts within each profile.
    pub closed spec fn wf(&self) -> bool {
        &&& unique_keys(profile_pairs(self.profiles@))
        &&& forall|i: int|
            0 <= i < self.profiles@.len() ==> unique_keys(
                host_pairs(#[trigger] self.profiles@[i].hosts@),
            )
    }

    pub closed spec fn spec_updated_at(&self) -> i64 {
        self.updated_at
    }

    /// A store without profiles, saved at `now`.
    pub fn new(now: i64) -> (r: Config)
        ensures
            r.wf(),
            r@ == Map::<Seq<char>, Map<Seq<char>, Seq<char>>>::empty(),
            r.spec_updated_at() == now,
    {
        let r = Config { profiles: Vec::new(), updated_at: now };
        assert(profile_pairs(r.profiles@) =~= Seq::empty());
        r
    }

    /// When the store was last saved.
    pub fn updated_at(&self) -> (r: i64)
        ensures
            r == self.spec_updated_at(),
    {
        self.updated_at
    }

    /// Marks the store as saved at `now`; the time never goes back.
    pub fn touch(&mut self, now: i64)
        ensures
            final(self)@ == old(self)@,
            final(self).wf() == old(self).wf(),
            final(self).spec_updated_at() == if now > old(self).spec_updated_at() {
                now
            } else {
                old(self).spec_updated_at()
            },
    {
        if now > self.updated_at {
            self.updated_at = now;
        }
    }

    /// The position of the profile called `name`, if there is one.
    fn find_profile(&self, name: &String) -> (r: Option<usize>)
        ensures
            match r {
                Some(i) => i < self.profiles@.len() && self.profiles@[i as int].name@ == name@,
                None => forall|i: int|
                    0 <= i < self.profiles@.len() ==> (#[trigger] self.profiles@[i]).name@
                        != name@,
            },
    {
        let mut i: usize = 0;
        while i < self.profiles.len()
            invariant
                i <= self.profiles@.len(),
                forall|m: int| 0 <= m < i ==> (#[trigger] self.profiles@[m]).name@ != name@,
            decreases self.profiles@.len() - i,
        {
            if self.profiles[i].name == *name {
                return Some(i);
            }
            i = i + 1;
        }
        None
    }

    /// Sets `host` of `profile` to use the key file `key`, adding the profile
    /// or the host where it is missing and replacing an earlier key path.
    pub fn insert(&mut self, profile: &str, host: &str, key: &str)
        requires
            old(self).wf(),
        ensures
            final(self).wf(),
            final(self)@ == with_entry(old(self)@, profile@, host@, key@),
            final(self).spec_updated_at() == old(self).spec_updated_at(),
    {
        let p = String::from_str(profile);
        let h = String::from_str(host);
        let k = String::from_str(key);
        let ghost old_pairs = profile_pairs(self.profiles@);
        let entry = HostKey { host: h, key: k };
        assert(entry.host@ == host@ && entry.key@ == key@);
        match self.find_profile(&p) {
            Some(i) => {
                let mut prof = self.profiles.remove(i);
                let ghost old_hosts = host_pairs(prof.hosts@);
                assert(old_pairs[i as int] == (prof.name@, map_of(old_hosts)));
                proof { lemma_map_of_index(old_pairs, i as int); }
                assert(unique_keys(old_hosts));
                match find_host(&prof.hosts, &entry.host) {
                    Some(j) => {
                        prof.hosts.set(j, entry);
                        assert(host_pairs(prof.hosts@) =~= old_hosts.update(
                            j as int,
                            (old_hosts[j as int].0, key@),
                        ));
                        proof { lemma_map_of_update(old_hosts, j as int, key@); }
                    },
                    None => {
                        prof.hosts.push(entry);
                        assert(host_pairs(prof.hosts@) =~= old_hosts.push((host@, key@)));
                        proof { lemma_map_of_push(old_hosts, host@, key@); }
                        proof { lemma_map_of_absent(old_hosts, host@); }
                        assert forall|a: int, b: int|
                            0 <= a < b < host_pairs(prof.hosts@).len() implies host_pairs(
                            prof.hosts@,
                        )[a].0 != host_pairs(prof.hosts@)[b].0 by {
                            if b == old_hosts.len() {
                                assert(old_hosts[a].0 != host@);
                            } else {
                                assert(host_pairs(prof.hosts@)[a] == old_hosts[a]);
                                assert(host_pairs(prof.hosts@)[b] == old_hosts[b]);
                            }
                        }
                    },
                }
                let ghost new_hosts = map_of(host_pairs(prof.hosts@));
                assert(new_hosts == map_of(old_hosts).insert(host@, key@));
                let ghost before = self.profiles@;
                self.profiles.insert(i, prof);
                assert(self.profiles@ =~= before.insert(i as int, prof));
                assert(profile_pairs(self.profiles@) =~= old_pairs.update(
                    i as int,
                    (old_pairs[i as int].0, new_hosts),
                ));
                proof { lemma_map_of_update(old_pairs, i as int, new_hosts); }
                assert forall|m: int| 0 <= m < self.profiles@.len() implies unique_keys(
                    host_pairs(#[trigger] self.profiles@[m].hosts@),
                ) by {
                    if m != i {
                        assert(self.profiles@[m] == old(self).profiles@[m]);
                    }
                }
            },
            None => {
                let mut hosts: Vec<HostKey> = Vec::new();
                hosts.push(entry);
                let ghost hp = host_pairs(hosts@);
                assert(hp =~= Seq::<(Seq<char>, Seq<char>)>::empty().push((host@, key@)));
                proof { lemma_map_of_push(Seq::<(Seq<char>, Seq<char>)>::empty(), host@, key@); }
                let prof = Profile { name: p, hosts };
                proof { lemma_map_of_absent(old_pairs, profile@); }
                self.profiles.push(prof);
                assert(profile_pairs(self.profiles@) =~= old_pairs.push((profile@, map_of(hp))));
                proof { lemma_map_of_push(old_pairs, profile@, map_of(hp)); }
                assert(map_of(hp) =~= Map::<Seq<char>, Seq<char>>::empty().insert(host@, key@));
                assert forall|a: int, b: int|
                    0 <= a < b < profile_pairs(self.profiles@).len() implies profile_pairs(
                    self.profiles@,
                )[a].0 != profile_pairs(self.profiles@)[b].0 by {
                    if b == old_pairs.len() {
                        assert(old_pairs[a].0 != profile@);
                    } else {
                        assert(profile_pairs(self.profiles@)[a] == old_pairs[a]);
                        assert(profile_pairs(self.profiles@)[b] == old_pairs[b]);
                    }
                }
                assert forall|m: int| 0 <= m < self.profiles@.len() implies unique_keys(
                    host_pairs(#[trigger] self.profiles@[m].hosts@),
                ) by {
                    if m < old(self).profiles@.len() {
                        assert(self.profiles@[m] == old(self).profiles@[m]);
                    }
                }
            },
        }
    }

    /// Adds the profile called `name` without hosts, unless it is there already.
    pub fn add_profile(&mut self, name: &str)
        requires
            old(self).wf(),
        ensures
            final(self).wf(),
            final(self)@ == if old(self)@.contains_key(name@) {
                old(self)@
            } else {
                old(self)@.insert(name@, Map::empty())
            },
            final(self).spec_updated_at() == old(self).spec_updated_at(),
    {
        let p = String::from_str(name);
        let ghost old_pairs = profile_pairs(self.profiles@);
        match self.find_profile(&p) {
            Some(i) => {
                proof {
                    lemma_map_of_index(old_pairs, i as int);
                }
            },
            None => {
                let hosts: Vec<HostKey> = Vec::new();
                assert(host_pairs(hosts@) =~= Seq::empty());
                assert(map_of(host_pairs(hosts@)) =~= Map::<Seq<char>, Seq<char>>::empty());
                let prof = Profile { name: p, hosts };
                proof {
                    lemma_map_of_absent(old_pairs, name@);
                }
                self.profiles.push(prof);
                assert(profile_pairs(self.profiles@) =~= old_pairs.push((name@, Map::empty())));
                proof {
                    lemma_map_of_push(old_pairs, name@, Map::empty());
                }
                assert forall|a: int, b: int|
                    0 <= a < b < profile_pairs(self.profiles@).len() implies profile_pairs(
                    self.profiles@,
                )[a].0 != profile_pairs(self.profiles@)[b].0 by {
                    if b == old_pairs.len() {
                        assert(old_pairs[a].0 != name@);
                    } else {
                        assert(profile_pairs(self.profiles@)[a] == old_pairs[a]);
                        assert(profile_pairs(self.profiles@)[b] == old_pairs[b]);
                    }
                }
                assert forall|m: int| 0 <= m < self.profiles@.len() implies unique_keys(
                    host_pairs(#[trigger] self.profiles@[m].hosts@),
                ) by {
                    if m < old(self).profiles@.len() {
                        assert(self.profiles@[m] == old(self).profiles@[m]);
                    }
                }
            },
        }
    }

    /// A store saved at `updated_at` that holds each profile of `listing`
    /// with its hosts, added first to last.
    pub fn from_listing(updated_at: i64, listing: &Vec<(String, Vec<(String, String)>)>) -> (r:
        Config)
        ensures
            r.wf(),
            r@ == loaded(Map::empty(), listing_view(listing@)),
            r.spec_updated_at() == updated_at,
    {
        let mut c = Config::new(updated_at);
        let ghost lv = listing_view(listing@);
        let mut i: usize = 0;
        while i < listing.len()
            invariant
                c.wf(),
                c.spec_updated_at() == updated_at,
                i <= listing@.len(),
                lv == listing_view(listing@),
                c@ == loaded(Map::empty(), lv.subrange(0, i as int)),
            decreases listing@.len() - i,
        {
            let name = &listing[i].0;
            let hosts = &listing[i].1;
            let ghost hv = text_pairs(hosts@);
            let ghost start = c@;
            c.add_profile(name.as_str());
            let mut j: usize = 0;
            while j < hosts.len()
                invariant
                    c.wf(),
                    c.spec_updated_at() == updated_at,
                    j <= hosts@.len(),
                    hv == text_pairs(hosts@),
                    c@ == with_hosts(with_profile(start, name@), name@, hv.subrange(0, j as int)),
                decreases hosts@.len() - j,
            {
                c.insert(name.as_str(), hosts[j].0.as_str(), hosts[j].1.as_str());
                assert(hv.subrange(0, j + 1).drop_last() =~= hv.subrange(0, j as int));
                j = j + 1;
            }
            assert(hv.subrange(0, j as int) =~= hv);
            assert(lv.subrange(0, i + 1).drop_last() =~= lv.subrange(0, i as int));
            assert(lv[i as int] == (name@, hv));
            i = i + 1;
        }
        assert(lv.subrange(0, i as int) =~= lv);
        c
    }

    /// Records that `host` of `profile` uses the key file `key`, when that
    /// file exists (`key_exists`); otherwise leaves the store as it was.
    pub fn add(&mut self, profile: &str, host: &str, key: &str, key_exists: bool) -> (r: Result<
        (),
        GakunError,
    >)
        requires
            old(self).wf(),
        ensures
            final(self).wf(),
            final(self).spec_updated_at() == old(self).spec_updated_at(),
            key_exists ==> r == Ok::<(), GakunError>(()) && final(self)@ == with_entry(
                old(self)@,
                profile@,
                host@,
                key@,
            ),
            !key_exists ==> r == Err::<(), GakunError>(GakunError::InvalidKeyPath)
                && final(self)@ == old(self)@,
    {
        if !key_exists {
            return Err(GakunError::InvalidKeyPath);
        }
        self.insert(profile, host, key);
        Ok(())
    }

    /// The key path stored for `host` under `profile`.
    pub fn lookup(&self, profile: &str, host: &str) -> (r: Result<String, GakunError>)
        requires
            self.wf(),
        ensures
            match r {
                Ok(key) => has_entry(self@, profile@, host@) && key@ == self@[profile@][host@],
                Err(e) => !has_entry(self@, profile@, host@) && e == GakunError::NotFound,
            },
    {
        let p = String::from_str(profile);
        let h = String::from_str(host);
        let ghost pairs = profile_pairs(self.profiles@);
        match self.find_profile(&p) {
            None => {
                proof {
                    lemma_map_of_absent(pairs, profile@);
                }
                Err(GakunError::NotFound)
            },
            Some(i) => {
                let hosts = &self.profiles[i].hosts;
                let ghost hp = host_pairs(hosts@);
                proof {
                    lemma_map_of_index(pairs, i as int);
                }
                assert(pairs[i as int] == (profile@, map_of(hp)));
                assert(unique_keys(hp));
                match find_host(hosts, &h) {
                    None => {
                        proof {
                            lemma_map_of_absent(hp, host@);
                        }
                        Err(GakunError::NotFound)
                    },
                    Some(j) => {
                        proof {
                            lemma_map_of_index(hp, j as int);
                        }
                        assert(hp[j as int] == (host@, hosts@[j as int].key@));
                        Ok(hosts[j].key.clone())
                    },
                }
            },
        }
    }

    /// Every profile with its (host, key path) pairs, in the order they were
    /// first added.
    pub fn list(&self) -> (r: Vec<(String, Vec<(String, String)>)>)
        requires
            self.wf(),
        ensures
            unique_keys(listed_pairs(r@)),
            map_of(listed_pairs(r@)) == self@,
            forall|i: int|
                0 <= i < r@.len() ==> unique_keys(text_pairs((#[trigger] r@[i]).1@)),
    {
        let mut r: Vec<(String, Vec<(String, String)>)> = Vec::new();
        let mut i: usize = 0;
        while i < self.profiles.len()
            invariant
                self.wf(),
                i <= self.profiles@.len(),
                listed_pairs(r@) =~= profile_pairs(self.profiles@).subrange(0, i as int),
                forall|m: int|
                    0 <= m < r@.len() ==> text_pairs((#[trigger] r@[m]).1@) == host_pairs(
                        self.profiles@[m].hosts@,
                    ),
                r@.len() == i,
            decreases self.profiles@.len() - i,
        {
            let prof = &self.profiles[i];
            let mut hosts: Vec<(String, String)> = Vec::new();
            let mut j: usize = 0;
            while j < prof.hosts.len()
                invariant
                    j <= prof.hosts@.len(),
                    text_pairs(hosts@) =~= host_pairs(prof.hosts@).subrange(0, j as int),
                decreases prof.hosts@.len() - j,
            {
                let e = &prof.hosts[j];
                let ghost before = hosts@;
                let hc = e.host.clone();
                let kc = e.key.clone();
                hosts.push((hc, kc));
                assert(text_pairs(hosts@) =~= text_pairs(before).push((e.host@, e.key@)));
                assert(host_pairs(prof.hosts@).subrange(0, j + 1) =~= host_pairs(
                    prof.hosts@,
                ).subrange(0, j as int).push((e.host@, e.key@)));
                j = j + 1;
            }
            assert(host_pairs(prof.hosts@).subrange(0, j as int) =~= host_pairs(prof.hosts@));
            let ghost before = r@;
            r.push((prof.name.clone(), hosts));
            assert forall|m: int|
                0 <= m < r@.len() implies text_pairs((#[trigger] r@[m]).1@) == host_pairs(
                self.profiles@[m].hosts@,
            ) by {
                if m < before.len() {
                    assert(r@[m] == before[m]);
                }
            }
            i = i + 1;
        }
        assert(profile_pairs(self.profiles@).subrange(0, i as int) =~= profile_pairs(
            self.profiles@,
        ));
        assert forall|m: int| 0 <= m < r@.len() implies unique_keys(
            text_pairs((#[trigger] r@[m]).1@),
        ) by {
            assert(unique_keys(host_pairs(self.profiles@[m].hosts@)));
        }
        r
    }

    /// The text after the managed block of `text` is replaced by the block that
    /// points `host` at the key path stored for it under `profile`.
    pub fn use_profile(&self, profile: &str, host: &str, text: &[u8]) -> (r: Result<
        Vec<u8>,
        GakunError,
    >)
        requires
            self.wf(),
        ensures
            match r {
                Ok(out) => has_entry(self@, profile@, host@) && out@ == spliced(
                    text@,
                    Some((host.spec_bytes(), encode_utf8(self@[profile@][host@]))),
                ),
                Err(e) => !has_entry(self@, profile@, host@) && e == GakunError::NotFound,
            },
    {
        match self.lookup(profile, host) {
            Ok(key) => Ok(apply(text, Some((host, key.as_str())))),
            Err(e) => Err(e),
        }
    }
}

/// Setting the key path of one host of one profile twice keeps only the
/// second: the store is as if only the second had been set, and a lookup finds
/// the second path.
pub proof fn lemma_add_overwrites(
    m: Map<Seq<char>, Map<Seq<char>, Seq<char>>>,
    profile: Seq<char>,
    host: Seq<char>,
    first: Seq<char>,
    second: Seq<char>,
)
    ensures
        with_entry(with_entry(m, profile, host, first), profile, host, second) == with_entry(
            m,
            profile,
            host,
            second,
        ),
        has_entry(with_entry(m, profile, host, second), profile, host),
        with_entry(m, profile, host, second)[profile][host] == second,
{
    let once = with_entry(m, profile, host, first);
    let hosts = if m.contains_key(profile) {
        m[profile]
    } else {
        Map::empty()
    };
    assert(once[profile] == hosts.insert(host, first));
    assert(hosts.insert(host, first).insert(host, second) =~= hosts.insert(host, second));
    assert(with_entry(once, profile, host, second) =~= with_entry(m, profile, host, second));
}

/// What a user is told of an error.
pub open spec fn error_text(e: GakunError) -> Seq<char> {
    match e {
        GakunError::InvalidKeyPath => "SSH key path is not valid"@,
        GakunError::NotFound =>
            "There is no such profile and host combination. Please type gakun ls to show your profiles and hosts."@,
    }
}

impl GakunError {
    /// The text shown to a user for this error.
    pub fn message(&self) -> (r: String)
        ensures
            r@ == error_text(*self),
    {
        match self {
            GakunError::InvalidKeyPath => String::from_str("SSH key path is not valid"),
            GakunError::NotFound => String::from_str(
                "There is no such profile and host combination. Please type gakun ls to show your profiles and hosts.",
            ),
        }
    }
}

/// `m` with a profile called `name`, added without hosts when missing.
pub open spec fn with_profile(
    m: Map<Seq<char>, Map<Seq<char>, Seq<char>>>,
    name: Seq<char>,
) -> Map<Seq<char>, Map<Seq<char>, Seq<char>>> {
    if m.contains_key(name) {
        m
    } else {
        m.insert(name, Map::empty())
    }
}

/// `m` after each (host, key path) pair of `hosts` is set under `name`, first to last.
pub open spec fn with_hosts(
    m: Map<Seq<char>, Map<Seq<char>, Seq<char>>>,
    name: Seq<char>,
    hosts: Seq<(Seq<char>, Seq<char>)>,
) -> Map<Seq<char>, Map<Seq<char>, Seq<char>>>
    decreases hosts.len(),
{
    if hosts.len() == 0 {
        m
    } else {
        with_entry(with_hosts(m, name, hosts.drop_last()), name, hosts.last().0, hosts.last().1)
    }
}

/// `m` after each profile of `listing` is added, with its hosts, first to last.
pub open spec fn loaded(
    m: Map<Seq<char>, Map<Seq<char>, Seq<char>>>,
    listing: Seq<(Seq<char>, Seq<(Seq<char>, Seq<char>)>)>,
) -> Map<Seq<char>, Map<Seq<char>, Seq<char>>>
    decreases listing.len(),
{
    if listing.len() == 0 {
        m
    } else {
        let prev = loaded(m, listing.drop_last());
        with_hosts(with_profile(prev, listing.last().0), listing.last().0, listing.last().1)
    }
}

/// A listing as (name, (host, key path) pairs) views.
pub open spec fn listing_view(r: Seq<(String, Vec<(String, String)>)>) -> Seq<
    (Seq<char>, Seq<(Seq<char>, Seq<char>)>),
> {
    r.map_values(|e: (String, Vec<(String, String)>)| (e.0@, text_pairs(e.1@)))
}

proof fn lemma_with_hosts_fresh(
    m: Map<Seq<char>, Map<Seq<char>, Seq<char>>>,
    name: Seq<char>,
    hosts: Seq<(Seq<char>, Seq<char>)>,
)
    ensures
        with_hosts(m.insert(name, Map::empty()), name, hosts) == m.insert(name, map_of(hosts)),
    decreases hosts.len(),
{
    if hosts.len() == 0 {
        assert(m.insert(name, Map::empty()) =~= m.insert(name, map_of(hosts)));
    } else {
        lemma_with_hosts_fresh(m, name, hosts.drop_last());
        let d = map_of(hosts.drop_last());
        assert(m.insert(name, d).insert(name, d.insert(hosts.last().0, hosts.last().1))
            =~= m.insert(name, map_of(hosts)));
    }
}

/// A store rebuilt from its own listing, profile by profile and host by host,
/// holds exactly what the store held.
pub proof fn lemma_listing_round_trip(c: Config, r: Seq<(String, Vec<(String, String)>)>)
    requires
        unique_keys(listed_pairs(r)),
        map_of(listed_pairs(r)) == c@,
    ensures
        loaded(Map::empty(), listing_view(r)) == c@,
{
    lemma_loaded_unique(r);
}

proof fn lemma_loaded_unique(r: Seq<(String, Vec<(String, String)>)>)
    requires
        unique_keys(listed_pairs(r)),
    ensures
        loaded(Map::empty(), listing_view(r)) == map_of(listed_pairs(r)),
    decreases r.len(),
{
    if r.len() > 0 {
        let d = r.drop_last();
        let lp = listed_pairs(r);
        assert(listed_pairs(d) =~= lp.drop_last());
        assert(listing_view(d) =~= listing_view(r).drop_last());
        assert forall|a: int, b: int|
            0 <= a < b < listed_pairs(d).len() implies listed_pairs(d)[a].0 != listed_pairs(
            d,
        )[b].0 by {
            assert(listed_pairs(d)[a] == lp[a]);
            assert(listed_pairs(d)[b] == lp[b]);
        }
        lemma_loaded_unique(d);
        let prev = map_of(listed_pairs(d));
        let name = r.last().0@;
        assert forall|j: int| 0 <= j < listed_pairs(d).len() implies (#[trigger] listed_pairs(
            d,
        )[j]).0 != name by {
            assert(listed_pairs(d)[j] == lp[j]);
            assert(lp[r.len() - 1].0 == name);
        }
        lemma_map_of_absent(listed_pairs(d), name);
        assert(listing_view(r).last() == (name, text_pairs(r.last().1@)));
        lemma_with_hosts_fresh(prev, name, text_pairs(r.last().1@));
        assert(lp.last() == (name, map_of(text_pairs(r.last().1@))));
    }
}

/// The pairs of a listing as (name, host map) pairs.
pub open spec fn listed_pairs(r: Seq<(String, Vec<(String, String)>)>) -> Seq<
    (Seq<char>, Map<Seq<char>, Seq<char>>),
> {
    r.map_values(|e: (String, Vec<(String, String)>)| (e.0@, map_of(text_pairs(e.1@))))
}

/// (host, key path) string pairs as views.
pub open spec fn text_pairs(r: Seq<(String, String)>) -> Seq<(Seq<char>, Seq<char>)> {
    r.map_values(|e: (String, String)| (e.0@, e.1@))
}


/// The position of `host` among `hosts`, if it is there.
fn find_host(hosts: &Vec<HostKey>, host: &String) -> (r: Option<usize>)
    ensures
        match r {
            Some(j) => j < hosts@.len() && hosts@[j as int].host@ == host@,
            None => forall|j: int| 0 <= j < hosts@.len() ==> (#[trigger] hosts@[j]).host@ != host@,
        },
{
    let mut j: usize = 0;
    while j < hosts.len()
        invariant
            j <= hosts@.len(),
            forall|m: int| 0 <= m < j ==> (#[trigger] hosts@[m]).host@ != host@,
        decreases hosts@.len() - j,
    {
        if hosts[j].host == *host {
            return Some(j);
        }
        j = j + 1;
    }
    None
}

} // verus!

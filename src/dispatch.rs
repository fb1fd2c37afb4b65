use vstd::prelude::*;
use vstd::string::StrSliceExecFns;

use crate::request::Request;
use crate::server::opt_view;

verus! {

/// `acc` with each host of `more` added in order, unless `acc` already holds it.
pub open spec fn with_hosts(acc: Seq<Seq<char>>, more: Seq<Seq<char>>) -> Seq<Seq<char>>
    decreases more.len(),
{
    if more.len() == 0 {
        acc
    } else {
        let before = with_hosts(acc, more.drop_last());
        if before.contains(more.last()) {
            before
        } else {
            before.push(more.last())
        }
    }
}

/// The hosts that a pipeline run has been asked to use so far, in the order
/// they were first named, each once. Hosts are only ever added.
pub struct PreferredComputers {
    hosts: Vec<String>,
}

impl View for PreferredComputers {
    type V = Seq<Seq<char>>;

    closed spec fn view(&self) -> Seq<Seq<char>> {
        self.hosts.deep_view()
    }
}

impl PreferredComputers {
    pub open spec fn wf(&self) -> bool {
        self@.no_duplicates()
    }

    /// The set a pipeline run starts from: the pipeline's own preference.
    pub fn new(seed: &Vec<String>) -> (r: PreferredComputers)
        ensures
            r.wf(),
            r@ == with_hosts(Seq::empty(), seed.deep_view()),
    {
        let mut r = PreferredComputers { hosts: Vec::new() };
        assert(r@ =~= Seq::<Seq<char>>::empty());
        r.extend(seed);
        r
    }

    /// Whether `host` is in the set.
    pub fn contains(&self, host: &String) -> (r: bool)
        ensures
            r == self@.contains(host@),
    {
        let mut k: usize = 0;
        while k < self.hosts.len()
            invariant
                k <= self.hosts.len(),
                self@ == self.hosts.deep_view(),
                forall|m: int| 0 <= m < k ==> self@[m] != host@,
            decreases self.hosts.len() - k,
        {
            if self.hosts[k] == *host {
                assert(self@[k as int] == host@);
                return true;
            }
            k = k + 1;
        }
        false
    }

    /// Adds the hosts of `more` that the set does not hold yet, in order.
    pub fn extend(&mut self, more: &Vec<String>)
        requires
            old(self).wf(),
        ensures
            final(self).wf(),
            final(self)@ == with_hosts(old(self)@, more.deep_view()),
    {
        let ghost start = self@;
        let mut k: usize = 0;
        while k < more.len()
            invariant
                k <= more.len(),
                self.wf(),
                self@ == with_hosts(start, more.deep_view().take(k as int)),
            decreases more.len() - k,
        {
            let ghost part = more.deep_view().take(k as int + 1);
            assert(part.drop_last() =~= more.deep_view().take(k as int));
            assert(part.last() == more[k as int]@);
            if !self.contains(&more[k]) {
                self.hosts.push(more[k].clone());
                assert(self@ =~= with_hosts(start, part));
            }
            k = k + 1;
        }
        assert(more.deep_view().take(more.len() as int) =~= more.deep_view());
    }

    /// How many hosts the set holds.
    pub fn len(&self) -> (r: usize)
        ensures
            r == self@.len(),
    {
        self.hosts.len()
    }

    /// The host at position `k`, in the order the hosts were added.
    pub fn host(&self, k: usize) -> (r: &String)
        requires
            k < self@.len(),
        ensures
            r@ == self@[k as int],
    {
        &self.hosts[k]
    }
}

/// The big disk that `entries` gives `host`: the last entry for it wins.
pub open spec fn disk_for(entries: Seq<(Seq<char>, Seq<char>)>, host: Seq<char>) -> Option<
    Seq<char>,
>
    decreases entries.len(),
{
    if entries.len() == 0 {
        None
    } else if entries.last().0 == host {
        Some(entries.last().1)
    } else {
        disk_for(entries.drop_last(), host)
    }
}

/// `s` holds exactly one `:`.
pub open spec fn one_colon(s: Seq<char>) -> bool {
    exists|p: int|
        0 <= p < s.len() && s[p] == ':' && forall|j: int|
            0 <= j < s.len() && j != p ==> #[trigger] s[j] != ':'
}

/// Splits a `host:path` big-disk setting into the host and the path. It
/// holds exactly when the text holds exactly one `:`.
pub fn split_big_disk(arg: &str) -> (r: Option<(String, String)>)
    ensures
        r is Some <==> one_colon(arg@),
        r matches Some(parts) ==> arg@ == parts.0@ + seq![':'] + parts.1@,
{
    let n = arg.unicode_len();
    let mut colon: Option<usize> = None;
    let mut i: usize = 0;
    while i < n
        invariant
            i <= n,
            n == arg@.len(),
            colon is None ==> forall|j: int| 0 <= j < i ==> #[trigger] arg@[j] != ':',
            colon matches Some(p) ==> p < i && arg@[p as int] == ':' && forall|j: int|
                0 <= j < i && j != p ==> #[trigger] arg@[j] != ':',
        decreases n - i,
    {
        if arg.get_char(i) == ':' {
            if let Some(p) = colon {
                proof {
                    assert forall|q: int|
                        0 <= q < arg@.len() && arg@[q] == ':' implies exists|j: int|
                        0 <= j < arg@.len() && j != q && #[trigger] arg@[j] == ':' by {
                        if q == p {
                            assert(arg@[i as int] == ':');
                        } else {
                            assert(arg@[p as int] == ':');
                        }
                    }
                }
                return None;
            }
            colon = Some(i);
        }
        i = i + 1;
    }
    match colon {
        None => {
            proof {
                if one_colon(arg@) {
                    let p = choose|p: int|
                        0 <= p < arg@.len() && arg@[p] == ':' && forall|j: int|
                            0 <= j < arg@.len() && j != p ==> #[trigger] arg@[j] != ':';
                    assert(arg@[p] != ':');
                }
            }
            None
        },
        Some(p) => {
            let host = arg.substring_char(0, p).to_owned();
            let path = arg.substring_char(p + 1, n).to_owned();
            assert(arg@ =~= host@ + seq![':'] + path@);
            Some((host, path))
        },
    }
}

/// Per-host big-disk overrides, for hosts whose big disk is not where their
/// own setting says.
pub struct BigDisks {
    entries: Vec<(String, String)>,
}

impl View for BigDisks {
    type V = Seq<(Seq<char>, Seq<char>)>;

    /// The entries in the order they were given.
    closed spec fn view(&self) -> Seq<(Seq<char>, Seq<char>)> {
        self.entries@.map_values(|e: (String, String)| (e.0@, e.1@))
    }
}

impl BigDisks {
    /// No overrides.
    pub fn new() -> (r: BigDisks)
        ensures
            r@ == Seq::<(Seq<char>, Seq<char>)>::empty(),
    {
        BigDisks { entries: Vec::new() }
    }

    /// Sets the big disk of `host`, replacing an earlier one.
    pub fn insert(&mut self, host: String, path: String)
        ensures
            final(self)@ == old(self)@.push((host@, path@)),
    {
        self.entries.push((host, path));
        assert(self@ =~= old(self)@.push((host@, path@)));
    }

    /// The big disk set for `host`, if any.
    pub fn get(&self, host: &String) -> (r: Option<String>)
        ensures
            opt_view(r) == disk_for(self@, host@),
    {
        let mut k: usize = self.entries.len();
        assert(self@.take(k as int) =~= self@);
        while k > 0
            invariant
                k <= self.entries.len(),
                disk_for(self@, host@) == disk_for(self@.take(k as int), host@),
            decreases k,
        {
            let ghost part = self@.take(k as int);
            assert(part.drop_last() =~= self@.take(k as int - 1));
            assert(part.last() == self@[k as int - 1]);
            if self.entries[k - 1].0 == *host {
                return Some(self.entries[k - 1].1.clone());
            }
            k = k - 1;
        }
        None
    }
}

/// What the login configuration holds for a host that a pipeline needs.
pub enum LoginEntry {
    /// No entry for the host.
    Missing,
    /// An entry that names no user.
    NoUser,
    /// An entry that names the user to log in as.
    User(String),
}

/// Why a run cannot start: a host that it needs cannot be logged into.
#[derive(Debug, PartialEq, Eq)]
pub enum SetupError {
    /// The login configuration has no entry for this host.
    NoHostEntry(String),
    /// The host's entry names no user.
    NoUserName(String),
}

/// Decides which hosts to connect to, and as whom, from the login entry of
/// each host that a pipeline needs (`entries[k]` belongs to `needed[k]`).
/// A host without an entry stops the run, before any host without a user
/// does; each is reported for the first such host.
pub fn connection_plan(needed: &Vec<String>, entries: &Vec<LoginEntry>) -> (r: Result<
    Vec<(String, String)>,
    SetupError,
>)
    requires
        needed.len() == entries.len(),
    ensures
        (exists|k: int| 0 <= k < entries.len() && #[trigger] entries[k] is Missing)
            <==> r matches Err(SetupError::NoHostEntry(_)),
        r matches Err(SetupError::NoHostEntry(h)) ==> exists|k: int|
            0 <= k < entries.len() && #[trigger] entries[k] is Missing && h@ == needed[k]@
                && forall|j: int| 0 <= j < k ==> !(entries[j] is Missing),
        r matches Err(SetupError::NoUserName(h)) ==> exists|k: int|
            0 <= k < entries.len() && #[trigger] entries[k] is NoUser && h@ == needed[k]@
                && forall|j: int| 0 <= j < k ==> !(entries[j] is NoUser),
        r is Ok <==> forall|k: int| 0 <= k < entries.len() ==> #[trigger] entries[k] is User,
        r matches Ok(plan) ==> plan.len() == needed.len() && forall|k: int|
            0 <= k < plan.len() ==> (#[trigger] plan[k]).0@ == needed[k]@ && (entries[k] matches LoginEntry::User(
                u,
            ) && plan[k].1@ == u@),
{
    let mut k: usize = 0;
    while k < entries.len()
        invariant
            k <= entries.len(),
            needed.len() == entries.len(),
            forall|j: int| 0 <= j < k ==> !(#[trigger] entries[j] is Missing),
        decreases entries.len() - k,
    {
        if let LoginEntry::Missing = &entries[k] {
            return Err(SetupError::NoHostEntry(needed[k].clone()));
        }
        k = k + 1;
    }
    let mut plan: Vec<(String, String)> = Vec::new();
    let mut k: usize = 0;
    while k < entries.len()
        invariant
            k <= entries.len(),
            needed.len() == entries.len(),
            forall|j: int| 0 <= j < entries.len() ==> !(#[trigger] entries[j] is Missing),
            plan.len() == k,
            forall|j: int|
                0 <= j < k ==> (#[trigger] plan[j]).0@ == needed[j]@ && (entries[j] matches LoginEntry::User(
                    u,
                ) && plan[j].1@ == u@),
        decreases entries.len() - k,
    {
        match &entries[k] {
            LoginEntry::User(u) => {
                plan.push((needed[k].clone(), u.clone()));
            },
            _ => {
                assert(entries[k as int] is NoUser);
                assert forall|j: int| 0 <= j < k implies !(#[trigger] entries[j] is NoUser) by {
                    assert(plan[j].0@ == needed[j]@);
                }
                return Err(SetupError::NoUserName(needed[k].clone()));
            },
        }
        k = k + 1;
    }
    assert forall|j: int| 0 <= j < entries.len() implies #[trigger] entries[j] is User by {
        assert(plan[j].0@ == needed[j]@);
    }
    Ok(plan)
}

/// Where one stage check goes: this machine, or one remote host with the big
/// disk to name in its request.
pub enum Dispatch {
    Local,
    Remote { host: String, big_disk: Option<String> },
}

/// The hosts that a stage targets once its own preference, if any, has been
/// added to those of the stages before it.
pub open spec fn stage_hosts(acc: Seq<Seq<char>>, preference: Option<Seq<Seq<char>>>) -> Seq<
    Seq<char>,
> {
    match preference {
        Some(more) => with_hosts(acc, more),
        None => acc,
    }
}

/// The view of a stage's own preference.
pub open spec fn preference_view(p: Option<Vec<String>>) -> Option<Seq<Seq<char>>> {
    match p {
        Some(v) => Some(v.deep_view()),
        None => None,
    }
}

/// Adding hosts keeps the earlier ones in their places, adds every new one,
/// and adds nothing else.
pub proof fn lemma_with_hosts(acc: Seq<Seq<char>>, more: Seq<Seq<char>>)
    ensures
        with_hosts(acc, more).len() >= acc.len(),
        with_hosts(acc, more).subrange(0, acc.len() as int) == acc,
        forall|h: Seq<char>|
            #[trigger] with_hosts(acc, more).contains(h) <==> acc.contains(h) || more.contains(h),
        acc.no_duplicates() ==> with_hosts(acc, more).no_duplicates(),
    decreases more.len(),
{
    if more.len() > 0 {
        let init = more.drop_last();
        lemma_with_hosts(acc, init);
        let before = with_hosts(acc, init);
        assert forall|h: Seq<char>| more.contains(h) <==> init.contains(h) || h == more.last() by {
            if more.contains(h) {
                let i = choose|i: int| 0 <= i < more.len() && more[i] == h;
                if i < more.len() - 1 {
                    assert(init[i] == h);
                }
            }
            if init.contains(h) {
                let i = choose|i: int| 0 <= i < init.len() && init[i] == h;
                assert(more[i] == h);
            }
            if h == more.last() {
                assert(more[more.len() - 1] == h);
            }
        }
        if !before.contains(more.last()) {
            let after = before.push(more.last());
            assert(after.subrange(0, acc.len() as int) =~= before.subrange(0, acc.len() as int));
            assert forall|h: Seq<char>| after.contains(h) <==> before.contains(h) || h
                == more.last() by {
                if after.contains(h) {
                    let i = choose|i: int| 0 <= i < after.len() && after[i] == h;
                    if i < before.len() {
                        assert(before[i] == h);
                    }
                }
                if before.contains(h) {
                    let i = choose|i: int| 0 <= i < before.len() && before[i] == h;
                    assert(after[i] == h);
                }
                if h == more.last() {
                    assert(after[before.len() as int] == h);
                }
            }
        }
    }
}

/// Preference accumulates over a pipeline run: a stage targets every host
/// that a stage before it targeted, in the same places, together with the
/// hosts of its own preference, and no other host.
pub proof fn lemma_hosts_accumulate(acc: Seq<Seq<char>>, preference: Option<Seq<Seq<char>>>)
    ensures
        stage_hosts(acc, preference).len() >= acc.len(),
        stage_hosts(acc, preference).subrange(0, acc.len() as int) == acc,
        forall|h: Seq<char>| #[trigger]
            stage_hosts(acc, preference).contains(h) <==> acc.contains(h) || (preference matches Some(
                more,
            ) && more.contains(h)),
{
    match preference {
        Some(more) => lemma_with_hosts(acc, more),
        None => {
            assert(acc.subrange(0, acc.len() as int) =~= acc);
        },
    }
}

/// Plans one stage of a pipeline run: adds the stage's preferred hosts to
/// those of the run, then checks locally where the run has no preferred
/// host, and otherwise on every preferred host, with its big disk.
pub fn plan_stage(
    acc: &mut PreferredComputers,
    stage_preference: &Option<Vec<String>>,
    big_disks: &BigDisks,
) -> (r: Vec<Dispatch>)
    requires
        old(acc).wf(),
    ensures
        final(acc).wf(),
        final(acc)@ == stage_hosts(old(acc)@, preference_view(*stage_preference)),
        final(acc)@.len() == 0 ==> r@.len() == 1 && r@[0] is Local,
        final(acc)@.len() > 0 ==> r@.len() == final(acc)@.len(),
        final(acc)@.len() > 0 ==> forall|k: int|
            0 <= k < r@.len() ==> (#[trigger] r@[k] matches Dispatch::Remote { host, big_disk }
                && host@ == final(acc)@[k] && opt_view(big_disk) == disk_for(big_disks@, host@)),
{
    if let Some(more) = stage_preference {
        acc.extend(more);
    }
    let mut out: Vec<Dispatch> = Vec::new();
    if acc.len() == 0 {
        out.push(Dispatch::Local);
        return out;
    }
    let mut k: usize = 0;
    while k < acc.len()
        invariant
            k <= acc@.len(),
            out@.len() == k,
            forall|m: int|
                0 <= m < k ==> (#[trigger] out@[m] matches Dispatch::Remote { host, big_disk }
                    && host@ == acc@[m] && opt_view(big_disk) == disk_for(big_disks@, host@)),
        decreases acc@.len() - k,
    {
        let host = acc.host(k).clone();
        let big_disk = big_disks.get(&host);
        out.push(Dispatch::Remote { host, big_disk });
        k = k + 1;
    }
    out
}

/// The request that a planned stage check sends.
pub fn request_for<St>(stage: St, target: &Dispatch, run_number_list: &Vec<String>) -> (r: Request<St>)
    ensures
        r.stage == stage,
        r.run_number_list@ == run_number_list@,
        target is Local ==> r.big_disk is None,
        target matches Dispatch::Remote { big_disk, .. } ==> opt_view(r.big_disk) == opt_view(
            *big_disk,
        ),
{
    let big_disk = match target {
        Dispatch::Local => None,
        Dispatch::Remote { big_disk, .. } => big_disk.clone(),
    };
    Request { stage, big_disk, run_number_list: run_number_list.clone() }
}

} // verus!

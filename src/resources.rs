//! The load registry: one slot per map path, moving from loading to a
//! terminal outcome, with one-shot consumption of completed loads.
use crate::map::Tiledmap;
use vstd::prelude::*;

verus! {

/// Where the load of one path stands. `Idle`: never requested.
#[derive(Clone, Debug, PartialEq, Eq)]
pub enum LoadStatus {
    Idle,
    Loading,
    Complete,
    Error(String),
}

/// The slot of one path: its load is running, or it ended with a map or an
/// error message.
#[derive(Debug, PartialEq)]
pub enum SharedResource {
    Loading,
    Complete(Tiledmap),
    Error(String),
}

/// Why a map could not be handed out yet.
#[derive(Clone, Debug, PartialEq, Eq)]
pub enum NotLoaded {
    /// Its load is still running (or was just started).
    NotReady,
    /// Its load failed with this message.
    Failed(String),
}

/// The abstract state of a registry: the slot of each requested path, and the
/// paths whose fetch has been asked for, in order.
pub ghost struct ResourcesView {
    pub slots: Map<Seq<char>, SharedResource>,
    pub fetches: Seq<Seq<char>>,
}

pub open spec fn status_spec(slot: Option<SharedResource>) -> LoadStatus {
    match slot {
        None => LoadStatus::Idle,
        Some(SharedResource::Loading) => LoadStatus::Loading,
        Some(SharedResource::Complete(_)) => LoadStatus::Complete,
        Some(SharedResource::Error(msg)) => LoadStatus::Error(msg),
    }
}

pub open spec fn is_terminal(slot: SharedResource) -> bool {
    !(slot is Loading)
}

impl ResourcesView {
    pub open spec fn slot(self, path: Seq<char>) -> Option<SharedResource> {
        if self.slots.contains_key(path) {
            Some(self.slots[path])
        } else {
            None
        }
    }

    /// A load of `path`: a new loading slot and one fetch request, unless the
    /// path already has a slot.
    pub open spec fn load(self, path: Seq<char>) -> ResourcesView {
        if self.slots.contains_key(path) {
            self
        } else {
            ResourcesView {
                slots: self.slots.insert(path, SharedResource::Loading),
                fetches: self.fetches.push(path),
            }
        }
    }

    /// The registry after `take(path)`, and what it returns.
    pub open spec fn take(self, path: Seq<char>) -> (ResourcesView, Option<SharedResource>) {
        if self.slots.contains_key(path) && is_terminal(self.slots[path]) {
            (ResourcesView { slots: self.slots.remove(path), fetches: self.fetches }, Some(self.slots[path]))
        } else {
            (self, None)
        }
    }

    /// The registry after `when_loaded(path)`, and what it returns.
    pub open spec fn when_loaded(self, path: Seq<char>) -> (ResourcesView, Result<Tiledmap, NotLoaded>) {
        match self.slot(path) {
            None => (self.load(path), Err(NotLoaded::NotReady)),
            Some(SharedResource::Loading) => (self, Err(NotLoaded::NotReady)),
            Some(SharedResource::Error(msg)) => (self, Err(NotLoaded::Failed(msg))),
            Some(SharedResource::Complete(map)) => (self.take(path).0, Ok(map)),
        }
    }

    /// The registry after `put(path, slot)`.
    pub open spec fn put(self, path: Seq<char>, slot: SharedResource) -> ResourcesView {
        ResourcesView { slots: self.slots.insert(path, slot), fetches: self.fetches }
    }

    /// The registry after the fetch of `path` ended: a loading slot takes the
    /// outcome; any other state stays as it is.
    pub open spec fn finish(self, path: Seq<char>, outcome: SharedResource) -> ResourcesView {
        if self.slot(path) == Some(SharedResource::Loading) {
            self.put(path, outcome)
        } else {
            self
        }
    }
}

/// Doing `load(p)` twice, before the first fetch has ended, asks for one
/// fetch only: exactly one when `p` had no slot, none when it had one.
pub proof fn lemma_load_dedups(v: ResourcesView, p: Seq<char>)
    ensures
        v.load(p).load(p) == v.load(p),
        v.load(p).fetches == (if v.slots.contains_key(p) {
            v.fetches
        } else {
            v.fetches.push(p)
        }),
{
}

/// Of two `take(p)` in a row, at most the first hands out the slot: the
/// second returns nothing.
pub proof fn lemma_take_once(v: ResourcesView, p: Seq<char>)
    ensures
        v.take(p).0.take(p).1 is None,
        v.take(p).1 is Some <==> (v.slots.contains_key(p) && is_terminal(v.slots[p])),
{
    let w = v.take(p).0;
    if v.slots.contains_key(p) && is_terminal(v.slots[p]) {
        assert(!w.slots.contains_key(p));
    }
}

/// Taking a completed slot and putting it back restores the registry.
pub proof fn lemma_take_put(v: ResourcesView, p: Seq<char>)
    requires
        v.take(p).1 is Some,
    ensures
        v.take(p).0.put(p, v.take(p).1->Some_0) == v,
{
    assert(v.take(p).0.put(p, v.take(p).1->Some_0).slots =~= v.slots);
}

/// The position of the entry keyed `path`.
pub open spec fn key_pos(loads: Seq<(String, SharedResource)>, path: Seq<char>) -> Option<int> {
    if exists|i: int| 0 <= i < loads.len() && (#[trigger] loads[i]).0@ == path {
        Some(choose|i: int| 0 <= i < loads.len() && (#[trigger] loads[i]).0@ == path)
    } else {
        None
    }
}

/// The map loads of one registry, fetched relative to `base_url`.
pub struct TiledmapResources {
    base_url: String,
    loads: Vec<(String, SharedResource)>,
    fetches: Vec<String>,
}

impl TiledmapResources {
    /// Keys are unique.
    pub closed spec fn wf(&self) -> bool {
        forall|i: int, j: int|
            0 <= i < self.loads@.len() && 0 <= j < self.loads@.len() && i != j ==> (
            #[trigger] self.loads@[i]).0@ != (#[trigger] self.loads@[j]).0@
    }

    pub closed spec fn view(&self) -> ResourcesView {
        ResourcesView {
            slots: Map::new(
                |k: Seq<char>| key_pos(self.loads@, k) is Some,
                |k: Seq<char>| self.loads@[key_pos(self.loads@, k)->Some_0].1,
            ),
            fetches: self.fetches@.map_values(|s: String| s@),
        }
    }

    pub closed spec fn base_url_spec(&self) -> Seq<char> {
        self.base_url@
    }

    pub fn new(base_url: &str) -> (r: TiledmapResources)
        ensures
            r.wf(),
            r@.slots == Map::<Seq<char>, SharedResource>::empty(),
            r@.fetches == Seq::<Seq<char>>::empty(),
            r.base_url_spec() == base_url@,
    {
        let r = TiledmapResources { base_url: base_url.to_owned(), loads: Vec::new(), fetches: Vec::new() };
        assert(r@.slots =~= Map::<Seq<char>, SharedResource>::empty());
        assert(r@.fetches =~= Seq::<Seq<char>>::empty());
        r
    }

    /// The base that paths are fetched relative to.
    pub fn base_url(&self) -> (r: &str)
        ensures
            r@ == self.base_url_spec(),
    {
        self.base_url.as_str()
    }

    fn position(&self, path: &str) -> (r: Option<usize>)
        requires
            self.wf(),
        ensures
            r matches Some(i) ==> key_pos(self.loads@, path@) == Some(i as int) && i < self.loads@.len(),
            r is None ==> key_pos(self.loads@, path@) is None,
    {
        let key = path.to_owned();
        let mut i: usize = 0;
        while i < self.loads.len()
            invariant
                0 <= i <= self.loads@.len(),
                key@ == path@,
                self.wf(),
                forall|j: int| 0 <= j < i ==> (#[trigger] self.loads@[j]).0@ != path@,
            decreases self.loads@.len() - i,
        {
            if self.loads[i].0 == key {
                proof {
                    let k = choose|j: int| 0 <= j < self.loads@.len() && (#[trigger] self.loads@[j]).0@ == path@;
                    assert(self.loads@[i as int].0@ == path@);
                    assert(k == i);
                }
                return Some(i);
            }
            i += 1;
        }
        None
    }

    /// Where the load of `path` stands.
    pub fn status_of(&self, path: &str) -> (r: LoadStatus)
        requires
            self.wf(),
        ensures
            r == status_spec(self@.slot(path@)),
    {
        match self.position(path) {
            None => LoadStatus::Idle,
            Some(i) => match &self.loads[i].1 {
                SharedResource::Loading => LoadStatus::Loading,
                SharedResource::Complete(_) => LoadStatus::Complete,
                SharedResource::Error(msg) => LoadStatus::Error(msg.clone()),
            },
        }
    }

    /// Requests the load of `path`: when `path` has no slot, it gets a loading
    /// one and its fetch is queued (see `take_fetch_requests`); otherwise
    /// nothing changes. Returns whether a fetch was queued.
    pub fn load(&mut self, path: &str) -> (started: bool)
        requires
            old(self).wf(),
        ensures
            final(self).wf(),
            final(self)@ == old(self)@.load(path@),
            started == !old(self)@.slots.contains_key(path@),
            final(self).base_url_spec() == old(self).base_url_spec(),
    {
        match self.position(path) {
            Some(_) => false,
            None => {
                let ghost old_loads = self.loads@;
                self.loads.push((path.to_owned(), SharedResource::Loading));
                self.fetches.push(path.to_owned());
                proof {
                    let n = old_loads.len() as int;
                    assert(self.loads@[n].0@ == path@);
                    assert forall|k: Seq<char>| #[trigger] key_pos(self.loads@, k) == (if k == path@ {
                        Some(n)
                    } else {
                        key_pos(old_loads, k)
                    }) by {
                        if k == path@ {
                            assert(self.loads@[n].0@ == k);
                        } else if key_pos(old_loads, k) is Some {
                            let i = key_pos(old_loads, k)->Some_0;
                            assert(self.loads@[i] == old_loads[i]);
                        } else {
                            assert forall|i: int| 0 <= i < self.loads@.len() implies (
                            #[trigger] self.loads@[i]).0@ != k by {
                                if i < n {
                                    assert(self.loads@[i] == old_loads[i]);
                                }
                            }
                        }
                    }
                    assert(self@.slots =~= old(self)@.load(path@).slots);
                    assert(self@.fetches =~= old(self)@.load(path@).fetches);
                }
                true
            },
        }
    }

    /// Hands out the paths whose fetch was queued since the last call, in
    /// order, and forgets them.
    pub fn take_fetch_requests(&mut self) -> (r: Vec<String>)
        requires
            old(self).wf(),
        ensures
            final(self).wf(),
            r@.map_values(|s: String| s@) == old(self)@.fetches,
            final(self)@.slots == old(self)@.slots,
            final(self)@.fetches == Seq::<Seq<char>>::empty(),
            final(self).base_url_spec() == old(self).base_url_spec(),
    {
        let mut r = Vec::new();
        std::mem::swap(&mut r, &mut self.fetches);
        assert(self@.fetches =~= Seq::<Seq<char>>::empty());
        assert(self@.slots =~= old(self)@.slots);
        r
    }

    proof fn lemma_key_pos_at(&self, i: int)
        requires
            self.wf(),
            0 <= i < self.loads@.len(),
        ensures
            key_pos(self.loads@, self.loads@[i].0@) == Some(i),
    {
        let k = self.loads@[i].0@;
        let j = choose|j: int| 0 <= j < self.loads@.len() && (#[trigger] self.loads@[j]).0@ == k;
        assert(self.loads@[j].0@ == k);
    }

    /// Takes the slot of `path` out of the registry when its load has ended;
    /// leaves a running or unknown load alone and returns nothing.
    pub fn take(&mut self, path: &str) -> (r: Option<SharedResource>)
        requires
            old(self).wf(),
        ensures
            final(self).wf(),
            (final(self)@, r) == old(self)@.take(path@),
            final(self).base_url_spec() == old(self).base_url_spec(),
    {
        match self.position(path) {
            None => None,
            Some(i) => {
                if let SharedResource::Loading = self.loads[i].1 {
                    return None;
                }
                let ghost old_loads = self.loads@;
                proof {
                    self.lemma_key_pos_at(i as int);
                }
                let (_, slot) = self.loads.remove(i);
                proof {
                    assert forall|a: int, b: int|
                        0 <= a < self.loads@.len() && 0 <= b < self.loads@.len() && a != b implies (
                        #[trigger] self.loads@[a]).0@ != (#[trigger] self.loads@[b]).0@ by {
                        let a2 = if a < i { a } else { a + 1 };
                        let b2 = if b < i { b } else { b + 1 };
                        assert(self.loads@[a] == old_loads[a2]);
                        assert(self.loads@[b] == old_loads[b2]);
                    }
                    assert forall|k: Seq<char>| #[trigger] key_pos(self.loads@, k) == (if k == path@ {
                        None
                    } else {
                        match key_pos(old_loads, k) {
                            Some(j) => Some(if j < i { j } else { j - 1 }),
                            None => None,
                        }
                    }) by {
                        if key_pos(old_loads, k) is Some {
                            let j = key_pos(old_loads, k)->Some_0;
                            if k != path@ {
                                assert(j != i);
                                let j2 = if j < i { j } else { j - 1 };
                                assert(self.loads@[j2] == old_loads[j]);
                                self.lemma_key_pos_at(j2);
                            }
                        }
                        if k == path@ || key_pos(old_loads, k) is None {
                            assert forall|a: int| 0 <= a < self.loads@.len() implies (
                            #[trigger] self.loads@[a]).0@ != k by {
                                let a2 = if a < i { a } else { a + 1 };
                                assert(self.loads@[a] == old_loads[a2]);
                                if k == path@ {
                                    assert(old_loads[a2].0@ != old_loads[i as int].0@);
                                }
                            }
                        }
                    }
                    assert(self@.slots =~= old(self)@.slots.remove(path@));
                }
                Some(slot)
            },
        }
    }

    /// Puts a taken slot back under `path`, which holds none: a registered
    /// slot is never replaced from outside, so its status never goes back.
    pub fn put(&mut self, path: &str, slot: SharedResource)
        requires
            old(self).wf(),
            !old(self)@.slots.contains_key(path@),
        ensures
            final(self).wf(),
            final(self)@ == old(self)@.put(path@, slot),
            final(self).base_url_spec() == old(self).base_url_spec(),
    {
        self.set_slot(path, slot);
    }

    /// Sets the slot of `path`, replacing any it has.
    fn set_slot(&mut self, path: &str, slot: SharedResource)
        requires
            old(self).wf(),
        ensures
            final(self).wf(),
            final(self)@ == old(self)@.put(path@, slot),
            final(self).base_url_spec() == old(self).base_url_spec(),
    {
        let ghost old_loads = self.loads@;
        match self.position(path) {
            Some(i) => {
                proof {
                    self.lemma_key_pos_at(i as int);
                }
                self.loads.set(i, (path.to_owned(), slot));
                proof {
                    assert forall|a: int, b: int|
                        0 <= a < self.loads@.len() && 0 <= b < self.loads@.len() && a != b implies (
                        #[trigger] self.loads@[a]).0@ != (#[trigger] self.loads@[b]).0@ by {
                        if a != i {
                            assert(self.loads@[a] == old_loads[a]);
                        }
                        if b != i {
                            assert(self.loads@[b] == old_loads[b]);
                        }
                    }
                    assert forall|k: Seq<char>| #[trigger] key_pos(self.loads@, k) == key_pos(old_loads, k) by {
                        if key_pos(old_loads, k) is Some {
                            let j = key_pos(old_loads, k)->Some_0;
                            self.lemma_key_pos_at(j);
                        } else {
                            assert forall|a: int| 0 <= a < self.loads@.len() implies (
                            #[trigger] self.loads@[a]).0@ != k by {
                                if a != i {
                                    assert(self.loads@[a] == old_loads[a]);
                                }
                            }
                        }
                    }
                    assert(self@.slots =~= old(self)@.put(path@, slot).slots);
                }
            },
            None => {
                self.loads.push((path.to_owned(), slot));
                proof {
                    let n = old_loads.len() as int;
                    assert(self.loads@[n].0@ == path@);
                    assert forall|k: Seq<char>| #[trigger] key_pos(self.loads@, k) == (if k == path@ {
                        Some(n)
                    } else {
                        key_pos(old_loads, k)
                    }) by {
                        if k == path@ {
                            assert(self.loads@[n].0@ == k);
                        } else if key_pos(old_loads, k) is Some {
                            let i = key_pos(old_loads, k)->Some_0;
                            assert(self.loads@[i] == old_loads[i]);
                        } else {
                            assert forall|i: int| 0 <= i < self.loads@.len() implies (
                            #[trigger] self.loads@[i]).0@ != k by {
                                if i < n {
                                    assert(self.loads@[i] == old_loads[i]);
                                }
                            }
                        }
                    }
                    assert(self@.slots =~= old(self)@.put(path@, slot).slots);
                }
            },
        }
    }

    /// Records how the fetch of `path` ended. Only a loading slot takes the
    /// outcome: a slot's status never goes back.
    pub fn finish_load(&mut self, path: &str, outcome: Result<Tiledmap, String>)
        requires
            old(self).wf(),
        ensures
            final(self).wf(),
            final(self)@ == old(self)@.finish(path@, outcome_slot(outcome)),
            final(self).base_url_spec() == old(self).base_url_spec(),
    {
        let loading = match self.position(path) {
            Some(i) => matches!(self.loads[i].1, SharedResource::Loading),
            None => false,
        };
        if loading {
            let slot = match outcome {
                Ok(map) => SharedResource::Complete(map),
                Err(msg) => SharedResource::Error(msg),
            };
            self.set_slot(path, slot);
        }
    }

    /// Hands out the map of `path` once its load has completed, taking its
    /// slot; starts the load when none was requested yet.
    pub fn when_loaded(&mut self, path: &str) -> (r: Result<Tiledmap, NotLoaded>)
        requires
            old(self).wf(),
        ensures
            final(self).wf(),
            (final(self)@, r) == old(self)@.when_loaded(path@),
            final(self).base_url_spec() == old(self).base_url_spec(),
    {
        match self.status_of(path) {
            LoadStatus::Idle => {
                self.load(path);
                Err(NotLoaded::NotReady)
            },
            LoadStatus::Loading => Err(NotLoaded::NotReady),
            LoadStatus::Error(msg) => Err(NotLoaded::Failed(msg)),
            LoadStatus::Complete => match self.take(path) {
                Some(SharedResource::Complete(map)) => Ok(map),
                _ => Err(NotLoaded::NotReady),
            },
        }
    }
}

impl Default for TiledmapResources {
    /// A registry fetching relative to the empty base.
    fn default() -> (r: TiledmapResources)
        ensures
            r.wf(),
            r@.slots == Map::<Seq<char>, SharedResource>::empty(),
            r@.fetches == Seq::<Seq<char>>::empty(),
            r.base_url_spec() == Seq::<char>::empty(),
    {
        let r = TiledmapResources::new("");
        proof {
            reveal_strlit("");
        }
        r
    }
}

/// The slot that a fetch's outcome makes.
pub open spec fn outcome_slot(outcome: Result<Tiledmap, String>) -> SharedResource {
    match outcome {
        Ok(map) => SharedResource::Complete(map),
        Err(msg) => SharedResource::Error(msg),
    }
}

} // verus!

//! Reference counts of mounted style scopes, and the decisions that decide
//! when a `<style>` element is inserted into or removed from the document.
use std::collections::HashMap;
use vstd::prelude::*;
use vstd::string::StringExecFns;
use crate::scope_id::ScopeId;
use crate::text::push_str;

verus! {

broadcast use vstd::std_specs::hash::group_hash_axioms;

/// Every registered scope has at least one live mount.
pub open spec fn counts_wf(m: Map<u32, usize>) -> bool {
    forall|k: u32| #[trigger] m.contains_key(k) ==> m[k] >= 1
}

/// Number of live mounts of scope `k`.
pub open spec fn mount_count(m: Map<u32, usize>, k: u32) -> nat {
    if m.contains_key(k) {
        m[k] as nat
    } else {
        0
    }
}

/// The counts after one more mount of scope `k`.
pub open spec fn after_inject(m: Map<u32, usize>, k: u32) -> Map<u32, usize> {
    m.insert(k, (mount_count(m, k) + 1) as usize)
}

/// The counts after one mount of scope `k` goes away.
pub open spec fn after_release(m: Map<u32, usize>, k: u32) -> Map<u32, usize> {
    if m.contains_key(k) {
        if m[k] <= 1 {
            m.remove(k)
        } else {
            m.insert(k, (m[k] - 1) as usize)
        }
    } else {
        m
    }
}

/// The counts after `n` more mounts of scope `k`.
pub open spec fn inject_times(m: Map<u32, usize>, k: u32, n: nat) -> Map<u32, usize>
    decreases n,
{
    if n == 0 {
        m
    } else {
        after_inject(inject_times(m, k, (n - 1) as nat), k)
    }
}

/// The counts after `n` mounts of scope `k` go away.
pub open spec fn release_times(m: Map<u32, usize>, k: u32, n: nat) -> Map<u32, usize>
    decreases n,
{
    if n == 0 {
        m
    } else {
        release_times(after_release(m, k), k, (n - 1) as nat)
    }
}

/// Releasing a mount undoes registering it: the counts are back to what they
/// were, and the `<style>` element is removed by the release exactly when the
/// registration inserted it.
pub proof fn lemma_release_undoes_inject(m: Map<u32, usize>, k: u32)
    requires
        counts_wf(m),
        mount_count(m, k) < usize::MAX,
    ensures
        after_release(after_inject(m, k), k) == m,
        (mount_count(after_inject(m, k), k) == 1) == !m.contains_key(k),
{
    let m1 = after_inject(m, k);
    if m.contains_key(k) {
        assert(after_release(m1, k) =~= m);
    } else {
        assert(after_release(m1, k) =~= m);
    }
}

/// `n` registrations raise the count of scope `k` by `n` and touch no other
/// scope.
pub proof fn lemma_inject_times(m: Map<u32, usize>, k: u32, n: nat)
    requires
        counts_wf(m),
        mount_count(m, k) + n <= usize::MAX,
    ensures
        counts_wf(inject_times(m, k, n)),
        n > 0 ==> inject_times(m, k, n) == m.insert(k, (mount_count(m, k) + n) as usize),
    decreases n,
{
    if n > 0 {
        lemma_inject_times(m, k, (n - 1) as nat);
        let prev = inject_times(m, k, (n - 1) as nat);
        if n > 1 {
            assert(mount_count(prev, k) == mount_count(m, k) + n - 1);
            assert(after_inject(prev, k) =~= m.insert(k, (mount_count(m, k) + n) as usize));
        }
    }
}

/// Releasing `n` mounts from a count of `c + n` leaves the count at `c`.
proof fn lemma_release_times_from(m: Map<u32, usize>, k: u32, c: nat, n: nat)
    requires
        c + n <= usize::MAX,
        c + n > 0,
    ensures
        release_times(m.insert(k, (c + n) as usize), k, n) == if c == 0 {
            m.remove(k)
        } else {
            m.insert(k, c as usize)
        },
    decreases n,
{
    if n > 0 {
        let m0 = m.insert(k, (c + n) as usize);
        if c + n == 1 {
            assert(after_release(m0, k) =~= m.remove(k));
            assert(release_times(after_release(m0, k), k, 0) == after_release(m0, k));
        } else {
            assert(after_release(m0, k) =~= m.insert(k, (c + n - 1) as usize));
            lemma_release_times_from(m, k, c, (n - 1) as nat);
        }
    }
}

/// Ref counting balances: mounting scope `k` `n` times and unmounting it `n`
/// times leaves the registry as it was.
pub proof fn lemma_balanced_mounts(m: Map<u32, usize>, k: u32, n: nat)
    requires
        counts_wf(m),
        mount_count(m, k) + n <= usize::MAX,
    ensures
        release_times(inject_times(m, k, n), k, n) == m,
{
    if n > 0 {
        lemma_inject_times(m, k, n);
        lemma_release_times_from(m, k, mount_count(m, k), n);
        if m.contains_key(k) {
            assert(m.insert(k, m[k]) =~= m);
        } else {
            assert(m.remove(k) =~= m);
        }
    }
}

/// The `<style>` element of a scope is in the document exactly while the
/// scope has a live mount: registering inserts it exactly when the scope
/// goes from absent to present, and releasing removes it exactly when the
/// scope goes from present to absent.
pub proof fn lemma_style_element_follows_mounts(m: Map<u32, usize>, k: u32)
    requires
        counts_wf(m),
        mount_count(m, k) < usize::MAX,
    ensures
        after_inject(m, k).contains_key(k),
        !m.contains_key(k) == (mount_count(after_inject(m, k), k) == 1),
        (mount_count(m, k) == 1) == (m.contains_key(k) && !after_release(m, k).contains_key(k)),
        counts_wf(after_release(m, k)),
{
    assert(counts_wf(after_release(m, k))) by {
        assert forall|j: u32| #[trigger] after_release(m, k).contains_key(j) implies after_release(
            m,
            k,
        )[j] >= 1 by {
            assert(m.contains_key(j));
        }
    }
}

/// Number of mounts (`true`) in a run of mounts and unmounts.
pub open spec fn mounts_in(events: Seq<bool>) -> nat
    decreases events.len(),
{
    if events.len() == 0 {
        0
    } else {
        mounts_in(events.drop_last()) + if events.last() {
            1nat
        } else {
            0nat
        }
    }
}

/// Number of unmounts (`false`) in a run of mounts and unmounts.
pub open spec fn unmounts_in(events: Seq<bool>) -> nat
    decreases events.len(),
{
    if events.len() == 0 {
        0
    } else {
        unmounts_in(events.drop_last()) + if events.last() {
            0nat
        } else {
            1nat
        }
    }
}

/// The counts after a run of mounts (`true`) and unmounts (`false`) of
/// scope `k`, in order.
pub open spec fn run_mounts(m: Map<u32, usize>, k: u32, events: Seq<bool>) -> Map<u32, usize>
    decreases events.len(),
{
    if events.len() == 0 {
        m
    } else {
        let prev = run_mounts(m, k, events.drop_last());
        if events.last() {
            after_inject(prev, k)
        } else {
            after_release(prev, k)
        }
    }
}

/// Ref counting over any interleaving: starting without scope `k`, after a
/// run of mounts and unmounts in which unmounts never outnumber the mounts
/// before them, `k` is registered exactly when there were more mounts than
/// unmounts, with their difference as its count, and no other scope changed.
/// Together with the results of `inject` and `release`, the scope's `<style>`
/// element is inserted at each rise of the count from 0 to 1, removed at each
/// fall from 1 to 0, and present exactly while an instance is mounted.
pub proof fn lemma_interleaved_mounts(m: Map<u32, usize>, k: u32, events: Seq<bool>)
    requires
        counts_wf(m),
        !m.contains_key(k),
        mounts_in(events) <= usize::MAX,
        forall|i: int|
            0 <= i <= events.len() ==> unmounts_in(#[trigger] events.subrange(0, i)) <= mounts_in(
                events.subrange(0, i),
            ),
    ensures
        run_mounts(m, k, events) == if mounts_in(events) > unmounts_in(events) {
            m.insert(k, (mounts_in(events) - unmounts_in(events)) as usize)
        } else {
            m
        },
        counts_wf(run_mounts(m, k, events)),
    decreases events.len(),
{
    if events.len() > 0 {
        let prefix = events.drop_last();
        assert forall|i: int| 0 <= i <= prefix.len() implies unmounts_in(
            #[trigger] prefix.subrange(0, i),
        ) <= mounts_in(prefix.subrange(0, i)) by {
            assert(prefix.subrange(0, i) =~= events.subrange(0, i));
        }
        lemma_interleaved_mounts(m, k, prefix);
        assert(events.subrange(0, events.len() as int) =~= events);
        let prev = run_mounts(m, k, prefix);
        let mc = mounts_in(prefix);
        let uc = unmounts_in(prefix);
        if events.last() {
            assert(after_inject(prev, k) =~= m.insert(k, (mc + 1 - uc) as usize));
        } else {
            if mc - uc > 1 {
                assert(after_release(prev, k) =~= m.insert(k, (mc - uc - 1) as usize));
            } else {
                assert(after_release(prev, k) =~= m);
            }
        }
        let r = run_mounts(m, k, events);
        assert(counts_wf(r)) by {
            assert forall|j: u32| #[trigger] r.contains_key(j) implies r[j] >= 1 by {
                if j != k {
                    assert(m.contains_key(j));
                }
            }
        }
    }
}

/// Ref-counted registry of mounted style scopes, keyed by scope hash.
pub struct StyleRegistry {
    counts: HashMap<u32, usize>,
}

impl View for StyleRegistry {
    type V = Map<u32, usize>;

    closed spec fn view(&self) -> Map<u32, usize> {
        self.counts@
    }
}

impl StyleRegistry {
    #[verifier::type_invariant]
    spec fn wf(&self) -> bool {
        counts_wf(self.counts@)
    }

    /// An empty registry.
    pub fn new() -> (r: Self)
        ensures
            r@ == Map::<u32, usize>::empty(),
    {
        StyleRegistry { counts: HashMap::new() }
    }

    /// Number of live mounts of the scope `id`.
    pub fn mount_count(&self, id: &ScopeId) -> (n: usize)
        ensures
            n as nat == mount_count(self@, id.hash_value()),
    {
        match self.counts.get(&id.digest()) {
            Some(n) => *n,
            None => 0,
        }
    }

    /// Register a new mount of the scope `id`.
    ///
    /// Returns `true` when this is the first live mount, that is when the
    /// scope's `<style>` element has to be inserted.
    pub fn inject(&mut self, id: &ScopeId) -> (first: bool)
        requires
            mount_count(old(self)@, id.hash_value()) < usize::MAX,
        ensures
            final(self)@ == after_inject(old(self)@, id.hash_value()),
            first == !old(self)@.contains_key(id.hash_value()),
            counts_wf(final(self)@),
    {
        proof {
            use_type_invariant(&*self);
        }
        let key = id.digest();
        let count = match self.counts.get(&key) {
            Some(n) => *n,
            None => 0,
        };
        let count = count + 1;
        let mut counts = HashMap::new();
        std::mem::swap(&mut counts, &mut self.counts);
        counts.insert(key, count);
        self.counts = counts;
        proof {
            assert(counts_wf(self.counts@)) by {
                assert forall|k: u32| #[trigger] self.counts@.contains_key(k) implies self.counts@[k]
                    >= 1 by {
                    if k != key {
                        assert(old(self)@.contains_key(k));
                    }
                }
            }
        }
        count == 1
    }

    /// Un-register one mount of the scope `id`.
    ///
    /// Returns `true` when the count reaches zero, that is when the scope's
    /// `<style>` element has to be removed.
    pub fn release(&mut self, id: &ScopeId) -> (last: bool)
        ensures
            final(self)@ == after_release(old(self)@, id.hash_value()),
            last == (mount_count(old(self)@, id.hash_value()) == 1),
            counts_wf(final(self)@),
    {
        proof {
            use_type_invariant(&*self);
        }
        let key = id.digest();
        match self.counts.get(&key) {
            Some(n) => {
                let count = *n;
                let count = if count > 0 {
                    count - 1
                } else {
                    0
                };
                let mut counts = HashMap::new();
                std::mem::swap(&mut counts, &mut self.counts);
                if count == 0 {
                    counts.remove(&key);
                    self.counts = counts;
                    proof {
                        assert(counts_wf(self.counts@)) by {
                            assert forall|k: u32| #[trigger]
                                self.counts@.contains_key(k) implies self.counts@[k] >= 1 by {
                                assert(old(self)@.contains_key(k));
                            }
                        }
                    }
                    true
                } else {
                    counts.insert(key, count);
                    self.counts = counts;
                    proof {
                        assert(counts_wf(self.counts@)) by {
                            assert forall|k: u32| #[trigger]
                                self.counts@.contains_key(k) implies self.counts@[k] >= 1 by {
                                if k != key {
                                    assert(old(self)@.contains_key(k));
                                }
                            }
                        }
                    }
                    false
                }
            },
            None => false,
        }
    }
}

/// What to do with the `<style>` element of a scope whose first mount was
/// just registered.
pub enum StyleInsertion {
    /// An element with the scope's id is already in the document (it was
    /// rendered on the server): leave it.
    AlreadyPresent,
    /// The stylesheet is empty: warn and insert nothing.
    EmptyCss,
    /// Create the element with the scope's id and the stylesheet as text.
    Insert,
}

/// Decide how to insert the `<style>` element for a scope, given whether an
/// element with its id is already in the document and the stylesheet.
pub fn insert_style_element(element_present: bool, css: &str) -> (action: StyleInsertion)
    ensures
        action == (if element_present {
            StyleInsertion::AlreadyPresent
        } else if css@.len() == 0 {
            StyleInsertion::EmptyCss
        } else {
            StyleInsertion::Insert
        }),
{
    if element_present {
        StyleInsertion::AlreadyPresent
    } else if css.is_empty() {
        StyleInsertion::EmptyCss
    } else {
        StyleInsertion::Insert
    }
}

/// `leptos-scoped-style-{id}`
pub open spec fn style_element_name(id: Seq<char>) -> Seq<char> {
    "leptos-scoped-style-"@ + id
}

/// The id of the `<style>` element of a scope. Server rendering gives the
/// element this id and the browser looks it up under the same id, so a
/// stylesheet the server already rendered is not inserted a second time.
pub fn style_element_id(id: &ScopeId) -> (s: String)
    ensures
        s@ == style_element_name(id@),
{
    let mut s = String::from_str("leptos-scoped-style-");
    push_str(&mut s, id.as_str());
    s
}

} // verus!

//! Deadlock detection for the locks and semaphores of a process: the
//! classic detection algorithm over an available vector and the request and
//! allocation matrices, one row per thread and one column per resource.
use vstd::prelude::*;

verus! {

/// Sum of `allocation[i][r]` over the threads `i < n` that satisfy `p`.
pub open spec fn held(allocation: Seq<Seq<u32>>, p: spec_fn(int) -> bool, r: int, n: int) -> int
    decreases n,
{
    if n <= 0 {
        0
    } else {
        held(allocation, p, r, n - 1) + if p(n - 1) { allocation[n - 1][r] as int } else { 0 }
    }
}

/// Every thread.
pub open spec fn everyone() -> spec_fn(int) -> bool {
    |i: int| true
}

/// The threads outside `s`.
pub open spec fn outside(s: Set<int>) -> spec_fn(int) -> bool {
    |i: int| !s.contains(i)
}

/// The threads marked in `marks`.
pub open spec fn marked(marks: Seq<bool>) -> spec_fn(int) -> bool {
    |i: int| 0 <= i < marks.len() && marks[i]
}

/// Number of marked entries.
pub open spec fn count_marked(marks: Seq<bool>) -> nat
    decreases marks.len(),
{
    if marks.len() == 0 {
        0
    } else {
        count_marked(marks.drop_last()) + if marks.last() { 1nat } else { 0nat }
    }
}

/// The state a detector keeps: what is available of each resource, and for
/// each thread what it waits for and what it holds.
#[verifier::ext_equal]
pub struct DetectorState {
    pub available: Seq<u32>,
    pub request: Seq<Seq<u32>>,
    pub allocation: Seq<Seq<u32>>,
}

impl DetectorState {
    pub open spec fn threads(self) -> int {
        self.request.len() as int
    }

    pub open spec fn resources(self) -> int {
        self.available.len() as int
    }

    /// One row per thread in both matrices, one column per resource.
    pub open spec fn well_shaped(self) -> bool {
        &&& self.allocation.len() == self.request.len()
        &&& forall|i: int| #![trigger self.request[i]] #![trigger self.allocation[i]]
            0 <= i < self.threads() ==> {
                &&& self.request[i].len() == self.resources()
                &&& self.allocation[i].len() == self.resources()
            }
    }

    /// What exists of resource `r`: what is available plus what all threads hold.
    pub open spec fn total(self, r: int) -> int {
        self.available[r] + held(self.allocation, everyone(), r, self.threads())
    }

    /// No count of any resource exceeds what a `u32` holds.
    pub open spec fn bounded(self) -> bool {
        forall|r: int| 0 <= r < self.resources() ==> #[trigger] self.total(r) <= u32::MAX
    }

    pub open spec fn holds_nothing(self, i: int) -> bool {
        forall|r: int| 0 <= r < self.resources() ==> #[trigger] self.allocation[i][r] == 0
    }

    /// Thread `i` gets all it requests once the threads that satisfy
    /// `released` have given back what they hold.
    pub open spec fn can_finish(self, i: int, released: spec_fn(int) -> bool) -> bool {
        forall|r: int| 0 <= r < self.resources() ==>
            #[trigger] self.request[i][r] <= self.available[r] + held(self.allocation, released, r, self.threads())
    }

    /// `s` is a nonempty set of threads, each holding something, none of which
    /// gets what it requests even if every thread outside `s` gives back all
    /// it holds.
    pub open spec fn blocked_set(self, s: Set<int>) -> bool {
        &&& exists|i: int| s.contains(i)
        &&& forall|i: int| #[trigger] s.contains(i) ==> {
            &&& 0 <= i < self.threads()
            &&& !self.holds_nothing(i)
            &&& !self.can_finish(i, outside(s))
        }
    }

    /// The threads are deadlocked: some set of them blocks.
    pub open spec fn deadlocked(self) -> bool {
        exists|s: Set<int>| self.blocked_set(s)
    }

    /// The state after thread `tid` asks for one unit of resource `rid`: it is
    /// granted if one is available, else recorded as requested.
    pub open spec fn after_request(self, tid: int, rid: int) -> DetectorState {
        if self.available[rid] > 0 {
            DetectorState {
                available: self.available.update(rid, (self.available[rid] - 1) as u32),
                request: self.request,
                allocation: self.allocation.update(tid,
                    self.allocation[tid].update(rid, (self.allocation[tid][rid] + 1) as u32)),
            }
        } else {
            DetectorState {
                available: self.available,
                request: self.request.update(tid, self.request[tid].update(rid, (self.request[tid][rid] + 1) as u32)),
                allocation: self.allocation,
            }
        }
    }

    /// The state after thread `tid` gives back one unit of resource `rid`: the
    /// unit becomes available, and what the thread holds goes down if it held any.
    pub open spec fn after_release(self, tid: int, rid: int) -> DetectorState {
        DetectorState {
            available: self.available.update(rid, (self.available[rid] + 1) as u32),
            request: self.request,
            allocation: if self.allocation[tid][rid] > 0 {
                self.allocation.update(tid, self.allocation[tid].update(rid, (self.allocation[tid][rid] - 1) as u32))
            } else {
                self.allocation
            },
        }
    }
}

pub proof fn lemma_held_congruent(a: Seq<Seq<u32>>, b: Seq<Seq<u32>>, p: spec_fn(int) -> bool, q: spec_fn(int) -> bool, r: int, n: int)
    requires
        forall|i: int| #![trigger p(i)] #![trigger q(i)] 0 <= i < n ==> p(i) == q(i),
        forall|i: int| #![trigger p(i)] #![trigger a[i][r]] 0 <= i < n && p(i) ==> a[i][r] == b[i][r],
    ensures
        held(a, p, r, n) == held(b, q, r, n),
    decreases n,
{
    if n > 0 {
        lemma_held_congruent(a, b, p, q, r, n - 1);
    }
}

pub proof fn lemma_held_mono(a: Seq<Seq<u32>>, p: spec_fn(int) -> bool, q: spec_fn(int) -> bool, r: int, n: int)
    requires
        forall|i: int| #![trigger p(i)] #![trigger q(i)] 0 <= i < n && p(i) ==> q(i),
    ensures
        held(a, p, r, n) <= held(a, q, r, n),
        0 <= held(a, p, r, n),
    decreases n,
{
    if n > 0 {
        lemma_held_mono(a, p, q, r, n - 1);
    }
}

/// Adding thread `k` to the counted threads adds what it holds.
pub proof fn lemma_held_add_one(a: Seq<Seq<u32>>, p: spec_fn(int) -> bool, q: spec_fn(int) -> bool, k: int, r: int, n: int)
    requires
        0 <= k < n,
        !p(k),
        q(k),
        forall|i: int| #![trigger p(i)] #![trigger q(i)] 0 <= i < n && i != k ==> p(i) == q(i),
    ensures
        held(a, q, r, n) == held(a, p, r, n) + a[k][r],
    decreases n,
{
    if n - 1 == k {
        lemma_held_congruent(a, a, p, q, r, n - 1);
    } else {
        lemma_held_add_one(a, p, q, k, r, n - 1);
    }
}

/// Changing what thread `k` holds of resource `r` changes the sum by as much.
pub proof fn lemma_held_change_one(a: Seq<Seq<u32>>, b: Seq<Seq<u32>>, p: spec_fn(int) -> bool, k: int, r: int, n: int)
    requires
        0 <= k < n,
        p(k),
        forall|i: int| #![trigger a[i][r]] #![trigger b[i][r]] 0 <= i < n && i != k ==> a[i][r] == b[i][r],
    ensures
        held(b, p, r, n) == held(a, p, r, n) + b[k][r] - a[k][r],
    decreases n,
{
    if n - 1 == k {
        lemma_held_congruent(a, b, p, p, r, n - 1);
    } else {
        lemma_held_change_one(a, b, p, k, r, n - 1);
    }
}

pub proof fn lemma_held_zero(a: Seq<Seq<u32>>, p: spec_fn(int) -> bool, r: int, n: int)
    requires
        forall|i: int| 0 <= i < n ==> #[trigger] a[i][r] == 0,
    ensures
        held(a, p, r, n) == 0,
    decreases n,
{
    if n > 0 {
        lemma_held_zero(a, p, r, n - 1);
    }
}

/// What one thread holds is part of what all threads hold.
pub proof fn lemma_held_one_le(a: Seq<Seq<u32>>, k: int, r: int, n: int)
    requires
        0 <= k < n,
    ensures
        a[k][r] <= held(a, everyone(), r, n),
{
    let others = |i: int| i != k;
    lemma_held_add_one(a, others, everyone(), k, r, n);
    lemma_held_mono(a, others, everyone(), r, n);
}

pub proof fn lemma_count_marked_set(marks: Seq<bool>, k: int)
    requires
        0 <= k < marks.len(),
        !marks[k],
    ensures
        count_marked(marks.update(k, true)) == count_marked(marks) + 1,
    decreases marks.len(),
{
    let m2 = marks.update(k, true);
    if k == marks.len() - 1 {
        assert(m2.drop_last() =~= marks.drop_last());
    } else {
        assert(m2.drop_last() =~= marks.drop_last().update(k, true));
        lemma_count_marked_set(marks.drop_last(), k);
    }
}

pub proof fn lemma_count_marked_full(marks: Seq<bool>)
    ensures
        count_marked(marks) <= marks.len(),
        count_marked(marks) == marks.len() ==> forall|i: int| 0 <= i < marks.len() ==> marks[i],
    decreases marks.len(),
{
    if marks.len() > 0 {
        lemma_count_marked_full(marks.drop_last());
        assert forall|i: int| 0 <= i < marks.len() && count_marked(marks) == marks.len() implies marks[i] by {
            if i < marks.len() - 1 {
                assert(marks.drop_last()[i] == marks[i]);
            }
        }
    }
}

/// Deadlock detector, kept per process.
pub struct DeadlockDetector {
    available_vec: Vec<u32>,
    request_mat: Vec<Vec<u32>>,
    allocation_mat: Vec<Vec<u32>>,
    thread_count: usize,
    resource_count: usize,
}

impl View for DeadlockDetector {
    type V = DetectorState;

    closed spec fn view(&self) -> DetectorState {
        DetectorState {
            available: self.available_vec@,
            request: self.request_mat@.map_values(|row: Vec<u32>| row@),
            allocation: self.allocation_mat@.map_values(|row: Vec<u32>| row@),
        }
    }
}

/// A row of `n` zeros.
fn zeros(n: usize) -> (v: Vec<u32>)
    ensures
        v@ == Seq::new(n as nat, |i: int| 0u32),
{
    let mut v: Vec<u32> = Vec::new();
    let mut k: usize = 0;
    while k < n
        invariant
            k <= n,
            v@ == Seq::new(k as nat, |i: int| 0u32),
        decreases n - k,
    {
        v.push(0);
        k += 1;
        assert(v@ =~= Seq::new(k as nat, |i: int| 0u32));
    }
    v
}

impl DeadlockDetector {
    /// The counts agree with the vectors and the matrices are well shaped.
    pub closed spec fn wf(&self) -> bool {
        &&& self@.well_shaped()
        &&& self.thread_count == self@.threads()
        &&& self.resource_count == self@.resources()
    }

    /// Create a new deadlock detector: one thread, no resources.
    pub fn new() -> (r: Self)
        ensures
            r.wf(),
            r@.well_shaped(),
            r@.available == Seq::<u32>::empty(),
            r@.request == seq![Seq::<u32>::empty()],
            r@.allocation == seq![Seq::<u32>::empty()],
    {
        let mut request_mat: Vec<Vec<u32>> = Vec::new();
        request_mat.push(Vec::new());

        let mut allocation_mat: Vec<Vec<u32>> = Vec::new();
        allocation_mat.push(Vec::new());

        let r = DeadlockDetector {
            available_vec: Vec::new(),
            request_mat,
            allocation_mat,
            thread_count: 1,
            resource_count: 0,
        };
        assert(r@.request =~= seq![Seq::<u32>::empty()]);
        assert(r@.allocation =~= seq![Seq::<u32>::empty()]);
        r
    }

    /// Add a thread, which requests and holds nothing.
    pub fn add_thread(&mut self)
        requires
            old(self).wf(),
        ensures
            final(self).wf(),
            final(self)@.well_shaped(),
            old(self)@.bounded() ==> final(self)@.bounded(),
            final(self)@.available == old(self)@.available,
            final(self)@.request == old(self)@.request.push(Seq::new(old(self)@.resources() as nat, |i: int| 0u32)),
            final(self)@.allocation == old(self)@.allocation.push(Seq::new(old(self)@.resources() as nat, |i: int| 0u32)),
    {
        let request_vec = zeros(self.resource_count);
        self.request_mat.push(request_vec);
        let allocation_vec = zeros(self.resource_count);
        self.allocation_mat.push(allocation_vec);
        assert(self.request_mat@.len() == self.request_mat.len());
        self.thread_count += 1;
        proof {
            let o = old(self)@;
            let v = self@;
            assert forall|i: int| #![trigger v.request[i]] #![trigger v.allocation[i]] 0 <= i < v.threads() implies
                v.request[i].len() == v.resources() && v.allocation[i].len() == v.resources() by {
                if i < o.threads() {
                    assert(v.request[i] == o.request[i]);
                    assert(v.allocation[i] == o.allocation[i]);
                }
            }
            assert(v.request =~= o.request.push(Seq::new(o.resources() as nat, |i: int| 0u32)));
            assert(v.allocation =~= o.allocation.push(Seq::new(o.resources() as nat, |i: int| 0u32)));
            assert forall|r: int| 0 <= r < v.resources() && o.bounded() implies #[trigger] v.total(r) <= u32::MAX by {
                lemma_held_congruent(o.allocation, v.allocation, everyone(), everyone(), r, o.threads());
                assert(v.allocation[o.threads()][r] == 0);
                assert(held(v.allocation, everyone(), r, v.threads()) == held(v.allocation, everyone(), r, o.threads()));
                assert(o.total(r) <= u32::MAX);
            }
        }
    }

    /// Add a resource of which `resource_count` units are available; no
    /// thread requests or holds any.
    pub fn add_resource(&mut self, resource_count: u32)
        requires
            old(self).wf(),
        ensures
            final(self).wf(),
            final(self)@.well_shaped(),
            old(self)@.bounded() ==> final(self)@.bounded(),
            final(self)@.available == old(self)@.available.push(resource_count),
            final(self)@.request == old(self)@.request.map_values(|row: Seq<u32>| row.push(0u32)),
            final(self)@.allocation == old(self)@.allocation.map_values(|row: Seq<u32>| row.push(0u32)),
    {
        self.available_vec.push(resource_count);
        assert(self.available_vec@.len() == self.available_vec.len());
        self.resource_count += 1;
        let mut i: usize = 0;
        while i < self.thread_count
            invariant
                i <= self.thread_count,
                self.thread_count == old(self).thread_count,
                self.thread_count == self.request_mat@.len(),
                self.request_mat@.len() == old(self).request_mat@.len(),
                forall|k: int| 0 <= k < i ==> #[trigger] self.request_mat@[k]@ == old(self).request_mat@[k]@.push(0u32),
                forall|k: int| i <= k < self.thread_count ==> #[trigger] self.request_mat@[k] == old(self).request_mat@[k],
                self.allocation_mat == old(self).allocation_mat,
                self.available_vec@ == old(self).available_vec@.push(resource_count),
                self.resource_count == old(self).resource_count + 1,
            decreases self.thread_count - i,
        {
            self.request_mat[i].push(0);
            i += 1;
        }
        let mut i: usize = 0;
        while i < self.thread_count
            invariant
                i <= self.thread_count,
                self.thread_count == old(self).thread_count,
                self.thread_count == self.allocation_mat@.len(),
                self.allocation_mat@.len() == old(self).allocation_mat@.len(),
                forall|k: int| 0 <= k < i ==> #[trigger] self.allocation_mat@[k]@ == old(self).allocation_mat@[k]@.push(0u32),
                forall|k: int| i <= k < self.thread_count ==> #[trigger] self.allocation_mat@[k] == old(self).allocation_mat@[k],
                self.request_mat@.len() == old(self).request_mat@.len(),
                forall|k: int| 0 <= k < self.thread_count ==> #[trigger] self.request_mat@[k]@ == old(self).request_mat@[k]@.push(0u32),
                self.available_vec@ == old(self).available_vec@.push(resource_count),
                self.resource_count == old(self).resource_count + 1,
            decreases self.thread_count - i,
        {
            self.allocation_mat[i].push(0);
            i += 1;
        }
        proof {
            let o = old(self)@;
            let v = self@;
            assert forall|i: int| #![trigger v.request[i]] #![trigger v.allocation[i]] 0 <= i < v.threads() implies
                v.request[i].len() == v.resources() && v.allocation[i].len() == v.resources() by {
                assert(v.request[i] == o.request[i].push(0u32));
                assert(v.allocation[i] == o.allocation[i].push(0u32));
            }
            assert(v.request =~= o.request.map_values(|row: Seq<u32>| row.push(0u32)));
            assert(v.allocation =~= o.allocation.map_values(|row: Seq<u32>| row.push(0u32)));
            assert forall|r: int| 0 <= r < v.resources() && o.bounded() implies #[trigger] v.total(r) <= u32::MAX by {
                if r < o.resources() {
                    assert forall|i: int| 0 <= i < o.threads() implies #[trigger] o.allocation[i][r] == v.allocation[i][r] by {
                        assert(v.allocation[i] == o.allocation[i].push(0u32));
                        assert(o.allocation[i].len() == o.resources());
                    }
                    lemma_held_congruent(o.allocation, v.allocation, everyone(), everyone(), r, o.threads());
                    assert(o.total(r) <= u32::MAX);
                } else {
                    assert forall|k: int| 0 <= k < v.threads() implies #[trigger] v.allocation[k][r] == 0 by {
                        assert(v.allocation[k] == o.allocation[k].push(0u32));
                        assert(o.allocation[k].len() == o.resources());
                    }
                    lemma_held_zero(v.allocation, everyone(), r, v.threads());
                }
            }
        }
    }

    /// Does thread `i` hold nothing?
    fn holds_nothing(&self, i: usize) -> (r: bool)
        requires
            self.wf(),
            i < self@.threads(),
        ensures
            r == self@.holds_nothing(i as int),
    {
        let row = &self.allocation_mat[i];
        assert(row@ == self@.allocation[i as int]);
        let mut j: usize = 0;
        while j < row.len()
            invariant
                j <= row@.len(),
                row@ == self@.allocation[i as int],
                row@.len() == self@.resources(),
                forall|k: int| 0 <= k < j ==> row@[k] == 0,
            decreases row@.len() - j,
        {
            if row[j] != 0 {
                return false;
            }
            j += 1;
        }
        true
    }

    /// Is every request of thread `i` at most what `work` offers?
    fn request_fits(&self, i: usize, work: &Vec<u32>) -> (r: bool)
        requires
            self.wf(),
            i < self@.threads(),
            work@.len() == self@.resources(),
        ensures
            r == forall|k: int| 0 <= k < self@.resources() ==> #[trigger] self@.request[i as int][k] <= work@[k],
    {
        let row = &self.request_mat[i];
        assert(row@ == self@.request[i as int]);
        let mut j: usize = 0;
        while j < row.len()
            invariant
                j <= row@.len(),
                row@ == self@.request[i as int],
                row@.len() == self@.resources(),
                work@.len() == self@.resources(),
                forall|k: int| 0 <= k < j ==> #[trigger] row@[k] <= work@[k],
            decreases row@.len() - j,
        {
            if row[j] > work[j] {
                return false;
            }
            j += 1;
        }
        true
    }

    /// Has every thread finished?
    fn all_finished(finish: &Vec<bool>) -> (r: bool)
        ensures
            r == forall|k: int| 0 <= k < finish@.len() ==> finish@[k],
    {
        let mut k: usize = 0;
        while k < finish.len()
            invariant
                k <= finish@.len(),
                forall|j: int| 0 <= j < k ==> finish@[j],
            decreases finish@.len() - k,
        {
            if !finish[k] {
                return false;
            }
            k += 1;
        }
        true
    }

    /// Is the process deadlocked? Threads that hold nothing count as
    /// finished; then, round after round, every unfinished thread whose
    /// requests can all be met finishes and gives back what it holds.
    fn is_deadlock(&self) -> (r: bool)
        requires
            self.wf(),
            self@.bounded(),
        ensures
            r == self@.deadlocked(),
    {
        let ghost st = self@;
        let n = self.thread_count;
        let m = self.resource_count;
        let mut work = self.available_vec.clone();
        assert(work@ =~= st.available);
        let mut finish: Vec<bool> = Vec::new();
        let mut t: usize = 0;
        while t < n
            invariant
                st == self@,
                self.wf(),
                st.bounded(),
                n == st.threads(),
                m == st.resources(),
                t <= n,
                finish@.len() == t,
                work@ == st.available,
                forall|k: int| 0 <= k < t ==> finish@[k] == st.holds_nothing(k),
            decreases n - t,
        {
            let nothing = self.holds_nothing(t);
            finish.push(nothing);
            t += 1;
        }
        proof {
            assert forall|r: int| 0 <= r < m implies #[trigger] work@[r] == st.available[r] + held(st.allocation, marked(finish@), r, n as int) by {
                assert forall|k: int| 0 <= k < n && #[trigger] marked(finish@)(k) implies st.allocation[k][r] == 0 by {
                    assert(st.holds_nothing(k));
                }
                lemma_held_zero_where(st.allocation, marked(finish@), r, n as int);
            }
            assert forall|s: Set<int>| #[trigger] st.blocked_set(s) implies (forall|k: int| #[trigger] s.contains(k) ==> !finish@[k]) by {
                assert forall|k: int| #[trigger] s.contains(k) implies !finish@[k] by {
                    assert(!st.holds_nothing(k));
                }
            }
        }
        let mut round: usize = 0;
        while round < n
            invariant
                st == self@,
                self.wf(),
                st.bounded(),
                n == st.threads(),
                m == st.resources(),
                round <= n,
                progress(st, finish@, work@),
                count_marked(finish@) >= round,
            decreases n - round,
        {
            let mut found = false;
            let mut i: usize = 0;
            while i < n
                invariant
                    st == self@,
                    self.wf(),
                    st.bounded(),
                    n == st.threads(),
                    m == st.resources(),
                    i <= n,
                    progress(st, finish@, work@),
                    count_marked(finish@) >= round + if found { 1int } else { 0int },
                    !found ==> forall|k: int| 0 <= k < i && !finish@[k] ==> !st.can_finish(k, #[trigger] marked(finish@)),
                decreases n - i,
            {
                if !finish[i] && self.request_fits(i, &work) {
                    let ghost fin0 = finish@;
                    let ghost work0 = work@;
                    proof {
                        lemma_finish_one(st, fin0, work0, i as int);
                    }
                    let mut j: usize = 0;
                    while j < m
                        invariant
                            st == self@,
                            self.wf(),
                            st.bounded(),
                            n == st.threads(),
                            m == st.resources(),
                            i < n,
                            j <= m,
                            work@.len() == m,
                            forall|r: int| 0 <= r < m ==> #[trigger] work@[r] == work0[r] + if r < j { st.allocation[i as int][r] as int } else { 0int },
                            forall|r: int| 0 <= r < m ==> work0[r] + st.allocation[i as int][r] <= u32::MAX,
                        decreases m - j,
                    {
                        assert(self.allocation_mat@[i as int]@ == st.allocation[i as int]);
                        work[j] = work[j] + self.allocation_mat[i][j];
                        j += 1;
                    }
                    finish.set(i, true);
                    found = true;
                    proof {
                        assert(finish@ == fin0.update(i as int, true));
                        lemma_count_marked_set(fin0, i as int);
                    }
                } else {
                    proof {
                        if !finish@[i as int] {
                            lemma_fits_is_can_finish(st, finish@, work@, i as int);
                        }
                    }
                }
                i += 1;
            }
            if Self::all_finished(&finish) {
                proof {
                    lemma_all_finished_not_deadlocked(st, finish@, work@);
                }
                return false;
            }
            if !found {
                proof {
                    lemma_stuck_is_deadlocked(st, finish@, work@);
                }
                return true;
            }
            round += 1;
        }
        proof {
            lemma_count_marked_full(finish@);
            lemma_all_finished_not_deadlocked(st, finish@, work@);
        }
        false
    }

    /// Thread `tid` requests one unit of resource `resource_id`: it gets it
    /// when one is available, else the request is recorded. Returns whether
    /// the process is free of deadlock afterwards.
    pub fn request_resources(&mut self, tid: usize, resource_id: usize) -> (r: bool)
        requires
            old(self).wf(),
            old(self)@.bounded(),
            tid < old(self)@.threads(),
            resource_id < old(self)@.resources(),
            old(self)@.available[resource_id as int] == 0 ==> old(self)@.request[tid as int][resource_id as int] < u32::MAX,
        ensures
            final(self).wf(),
            final(self)@.well_shaped(),
            final(self)@.bounded(),
            final(self)@ == old(self)@.after_request(tid as int, resource_id as int),
            old(self)@.available[resource_id as int] == 0 ==> {
                &&& final(self)@.request[tid as int][resource_id as int] == old(self)@.request[tid as int][resource_id as int] + 1
                &&& final(self)@.available == old(self)@.available
                &&& final(self)@.allocation == old(self)@.allocation
            },
            old(self)@.available[resource_id as int] > 0 ==> {
                &&& final(self)@.available[resource_id as int] == old(self)@.available[resource_id as int] - 1
                &&& final(self)@.allocation[tid as int][resource_id as int] == old(self)@.allocation[tid as int][resource_id as int] + 1
                &&& final(self)@.request == old(self)@.request
            },
            r == !final(self)@.deadlocked(),
    {
        let ghost o = self@;
        if self.available_vec[resource_id] > 0 {
            proof {
                lemma_held_one_le(o.allocation, tid as int, resource_id as int, o.threads());
                assert(o.total(resource_id as int) <= u32::MAX);
                assert(self.allocation_mat@[tid as int]@ == o.allocation[tid as int]);
            }
            self.available_vec[resource_id] -= 1;
            self.allocation_mat[tid][resource_id] += 1;
        } else {
            assert(self.request_mat@[tid as int]@ == o.request[tid as int]);
            self.request_mat[tid][resource_id] += 1;
        }
        proof {
            let v = self@;
            let t = tid as int;
            let rid = resource_id as int;
            let e = o.after_request(t, rid);
            assert(v.available =~= e.available);
            assert(v.request[t] =~= e.request[t]);
            assert(v.request =~= e.request);
            assert(v.allocation[t] =~= e.allocation[t]);
            assert(v.allocation =~= e.allocation);
            assert(v == e);
            lemma_request_keeps_totals(o, t, rid);
            assert forall|r: int| 0 <= r < v.resources() implies #[trigger] v.total(r) <= u32::MAX by {
                assert(o.total(r) <= u32::MAX);
            }
        }
        !self.is_deadlock()
    }

    /// Thread `tid` gives back one unit of resource `resource_id`.
    pub fn release_resources(&mut self, tid: usize, resource_id: usize)
        requires
            old(self).wf(),
            tid < old(self)@.threads(),
            resource_id < old(self)@.resources(),
            old(self)@.available[resource_id as int] < u32::MAX,
        ensures
            final(self).wf(),
            final(self)@.well_shaped(),
            final(self)@ == old(self)@.after_release(tid as int, resource_id as int),
            old(self)@.bounded() && (old(self)@.allocation[tid as int][resource_id as int] > 0
                || old(self)@.total(resource_id as int) < u32::MAX) ==> final(self)@.bounded(),
    {
        let ghost o = self@;
        proof {
            assert(self.allocation_mat@[tid as int]@ == o.allocation[tid as int]);
        }
        if self.allocation_mat[tid][resource_id] > 0 {
            self.allocation_mat[tid][resource_id] -= 1;
            self.available_vec[resource_id] += 1;
        } else {
            self.available_vec[resource_id] += 1;
        }
        proof {
            let v = self@;
            let t = tid as int;
            let rid = resource_id as int;
            let e = o.after_release(t, rid);
            assert(v.available =~= e.available);
            assert(v.request =~= e.request);
            assert(v.allocation[t] =~= e.allocation[t]);
            assert(v.allocation =~= e.allocation);
            assert(v == e);
            lemma_release_totals(o, t, rid);
            if o.bounded() && (o.allocation[t][rid] > 0 || o.total(rid) < u32::MAX) {
                assert forall|r: int| 0 <= r < v.resources() implies #[trigger] v.total(r) <= u32::MAX by {
                    assert(o.total(r) <= u32::MAX);
                }
            }
        }
    }
}

/// What the detection rounds keep: `work` is what is available plus what the
/// finished threads hold, every thread that holds nothing is finished, and no
/// thread of a blocked set is finished.
spec fn progress(st: DetectorState, fin: Seq<bool>, work: Seq<u32>) -> bool {
    &&& fin.len() == st.threads()
    &&& work.len() == st.resources()
    &&& forall|r: int| 0 <= r < st.resources() ==>
        #[trigger] work[r] == st.available[r] + held(st.allocation, marked(fin), r, st.threads())
    &&& forall|k: int| 0 <= k < st.threads() && #[trigger] st.holds_nothing(k) ==> fin[k]
    &&& forall|s: Set<int>| #[trigger] st.blocked_set(s) ==> (forall|k: int| #[trigger] s.contains(k) ==> !fin[k])
}

pub proof fn lemma_held_zero_where(a: Seq<Seq<u32>>, p: spec_fn(int) -> bool, r: int, n: int)
    requires
        forall|i: int| 0 <= i < n && #[trigger] p(i) ==> a[i][r] == 0,
    ensures
        held(a, p, r, n) == 0,
    decreases n,
{
    if n > 0 {
        lemma_held_zero_where(a, p, r, n - 1);
    }
}

proof fn lemma_fits_is_can_finish(st: DetectorState, fin: Seq<bool>, work: Seq<u32>, i: int)
    requires
        st.well_shaped(),
        progress(st, fin, work),
        0 <= i < st.threads(),
    ensures
        st.can_finish(i, marked(fin)) == forall|k: int| 0 <= k < st.resources() ==> #[trigger] st.request[i][k] <= work[k],
{
}

/// Finishing thread `i`, which can finish, keeps the detection invariant.
proof fn lemma_finish_one(st: DetectorState, fin: Seq<bool>, work: Seq<u32>, i: int)
    requires
        st.well_shaped(),
        st.bounded(),
        progress(st, fin, work),
        0 <= i < st.threads(),
        !fin[i],
        forall|k: int| 0 <= k < st.resources() ==> #[trigger] st.request[i][k] <= work[k],
    ensures
        forall|r: int| 0 <= r < st.resources() ==> work[r] + st.allocation[i][r] <= u32::MAX,
        progress(st, fin.update(i, true), Seq::new(work.len(), |r: int| (work[r] + st.allocation[i][r]) as u32)),
        forall|r: int| 0 <= r < st.resources() ==> #[trigger] work[r] + st.allocation[i][r]
            == st.available[r] + held(st.allocation, marked(fin.update(i, true)), r, st.threads()),
{
    let n = st.threads();
    let fin2 = fin.update(i, true);
    let work2 = Seq::new(work.len(), |r: int| (work[r] + st.allocation[i][r]) as u32);
    assert forall|r: int| 0 <= r < st.resources() implies #[trigger] work[r] + st.allocation[i][r]
        == st.available[r] + held(st.allocation, marked(fin2), r, n) && work[r] + st.allocation[i][r] <= u32::MAX by {
        lemma_held_add_one(st.allocation, marked(fin), marked(fin2), i, r, n);
        lemma_held_mono(st.allocation, marked(fin2), everyone(), r, n);
        assert(st.total(r) <= u32::MAX);
    }
    assert forall|s: Set<int>| #[trigger] st.blocked_set(s) implies (forall|k: int| #[trigger] s.contains(k) ==> !fin2[k]) by {
        if s.contains(i) {
            assert(!st.can_finish(i, outside(s)));
            let r = choose|r: int| 0 <= r < st.resources() && !(st.request[i][r] <= st.available[r] + held(st.allocation, outside(s), r, n));
            assert forall|k: int| 0 <= k < n && #[trigger] marked(fin)(k) implies outside(s)(k) by {
                if s.contains(k) {
                    assert(!fin[k]);
                }
            }
            lemma_held_mono(st.allocation, marked(fin), outside(s), r, n);
            assert(st.request[i][r] <= work[r]);
            assert(false);
        }
        assert forall|k: int| #[trigger] s.contains(k) implies !fin2[k] by {
            assert(!fin[k]);
        }
    }
    assert forall|k: int| 0 <= k < n && #[trigger] st.holds_nothing(k) implies fin2[k] by {
        assert(fin[k]);
    }
    assert forall|r: int| 0 <= r < st.resources() implies
        #[trigger] work2[r] == st.available[r] + held(st.allocation, marked(fin2), r, n) by {
        assert(work[r] + st.allocation[i][r] == st.available[r] + held(st.allocation, marked(fin2), r, n));
    }
}

proof fn lemma_all_finished_not_deadlocked(st: DetectorState, fin: Seq<bool>, work: Seq<u32>)
    requires
        progress(st, fin, work),
        forall|k: int| 0 <= k < fin.len() ==> fin[k],
    ensures
        !st.deadlocked(),
{
    assert forall|s: Set<int>| !st.blocked_set(s) by {
        if st.blocked_set(s) {
            let k = choose|k: int| s.contains(k);
            assert(!fin[k]);
        }
    }
}

proof fn lemma_stuck_is_deadlocked(st: DetectorState, fin: Seq<bool>, work: Seq<u32>)
    requires
        st.well_shaped(),
        progress(st, fin, work),
        !(forall|k: int| 0 <= k < fin.len() ==> fin[k]),
        forall|k: int| 0 <= k < st.threads() && !fin[k] ==> !st.can_finish(k, #[trigger] marked(fin)),
    ensures
        st.deadlocked(),
{
    let n = st.threads();
    let s = Set::new(|k: int| 0 <= k < n && !fin[k]);
    let k0 = choose|k: int| !(0 <= k < fin.len() ==> fin[k]);
    assert(s.contains(k0));
    assert forall|r: int| 0 <= r < st.resources() implies
        held(st.allocation, outside(s), r, n) == held(st.allocation, marked(fin), r, n) by {
        lemma_held_congruent(st.allocation, st.allocation, outside(s), marked(fin), r, n);
    }
    assert forall|k: int| #[trigger] s.contains(k) implies {
        &&& 0 <= k < n
        &&& !st.holds_nothing(k)
        &&& !st.can_finish(k, outside(s))
    } by {
        assert(!st.can_finish(k, marked(fin)));
        if st.holds_nothing(k) {
            assert(fin[k]);
        }
    }
    assert(st.blocked_set(s));
}

/// A request never changes how much of any resource exists: a granted unit
/// moves from the available vector to the requesting thread, a refused one
/// only adds to the request matrix.
pub proof fn lemma_request_keeps_totals(st: DetectorState, tid: int, rid: int)
    requires
        st.well_shaped(),
        0 <= tid < st.threads(),
        0 <= rid < st.resources(),
        st.available[rid] > 0 ==> st.allocation[tid][rid] < u32::MAX,
    ensures
        st.after_request(tid, rid).well_shaped(),
        forall|r: int| 0 <= r < st.resources() ==> #[trigger] st.after_request(tid, rid).total(r) == st.total(r),
{
    let e = st.after_request(tid, rid);
    let n = st.threads();
    assert forall|i: int| #![trigger e.request[i]] #![trigger e.allocation[i]] 0 <= i < e.threads() implies
        e.request[i].len() == e.resources() && e.allocation[i].len() == e.resources() by {
        assert(st.request[i].len() == st.resources());
        assert(st.allocation[i].len() == st.resources());
    }
    assert forall|r: int| 0 <= r < st.resources() implies #[trigger] e.total(r) == st.total(r) by {
        if st.available[rid] > 0 {
            if r == rid {
                lemma_held_change_one(st.allocation, e.allocation, everyone(), tid, r, n);
            } else {
                lemma_held_congruent(st.allocation, e.allocation, everyone(), everyone(), r, n);
            }
        }
    }
}

/// A release adds one unit to what exists of the resource when the thread
/// held none, and changes nothing else.
pub proof fn lemma_release_totals(st: DetectorState, tid: int, rid: int)
    requires
        st.well_shaped(),
        0 <= tid < st.threads(),
        0 <= rid < st.resources(),
        st.available[rid] < u32::MAX,
    ensures
        st.after_release(tid, rid).well_shaped(),
        forall|r: int| 0 <= r < st.resources() ==> #[trigger] st.after_release(tid, rid).total(r)
            == st.total(r) + if r == rid && st.allocation[tid][rid] == 0 { 1int } else { 0int },
{
    let e = st.after_release(tid, rid);
    let n = st.threads();
    assert forall|i: int| #![trigger e.request[i]] #![trigger e.allocation[i]] 0 <= i < e.threads() implies
        e.request[i].len() == e.resources() && e.allocation[i].len() == e.resources() by {
        assert(st.request[i].len() == st.resources());
        assert(st.allocation[i].len() == st.resources());
    }
    assert forall|r: int| 0 <= r < st.resources() implies #[trigger] e.total(r)
        == st.total(r) + if r == rid && st.allocation[tid][rid] == 0 { 1int } else { 0int } by {
        if st.allocation[tid][rid] > 0 && r == rid {
            lemma_held_change_one(st.allocation, e.allocation, everyone(), tid, r, n);
        } else {
            lemma_held_congruent(st.allocation, e.allocation, everyone(), everyone(), r, n);
        }
    }
}

/// Giving back a unit that a request has just been granted restores the
/// state from before the request, when the thread holds fewer than
/// `u32::MAX` units so that the granted one can be counted.
pub proof fn lemma_release_undoes_granted_request(st: DetectorState, tid: int, rid: int)
    requires
        st.well_shaped(),
        0 <= tid < st.threads(),
        0 <= rid < st.resources(),
        st.available[rid] > 0,
        st.allocation[tid][rid] < u32::MAX,
    ensures
        st.after_request(tid, rid).after_release(tid, rid) == st,
{
    let e = st.after_request(tid, rid).after_release(tid, rid);
    assert(e.available =~= st.available);
    assert(e.allocation[tid] =~= st.allocation[tid]);
    assert(e.allocation =~= st.allocation);
    assert(e.request =~= st.request);
}

/// When no thread holds anything there is no deadlock.
pub proof fn lemma_nothing_held_no_deadlock(st: DetectorState)
    requires
        forall|i: int| 0 <= i < st.threads() ==> #[trigger] st.holds_nothing(i),
    ensures
        !st.deadlocked(),
{
    assert forall|s: Set<int>| !st.blocked_set(s) by {
        if st.blocked_set(s) {
            let k = choose|k: int| s.contains(k);
            assert(st.holds_nothing(k));
        }
    }
}

/// When no thread waits for anything there is no deadlock.
pub proof fn lemma_no_requests_no_deadlock(st: DetectorState)
    requires
        st.well_shaped(),
        forall|i: int, r: int| 0 <= i < st.threads() && 0 <= r < st.resources() ==> #[trigger] st.request[i][r] == 0,
    ensures
        !st.deadlocked(),
{
    assert forall|s: Set<int>| !st.blocked_set(s) by {
        if st.blocked_set(s) {
            let k = choose|k: int| s.contains(k);
            assert forall|r: int| 0 <= r < st.resources() implies #[trigger] st.request[k][r]
                <= st.available[r] + held(st.allocation, outside(s), r, st.threads()) by {
                lemma_held_mono(st.allocation, outside(s), outside(s), r, st.threads());
            }
            assert(st.can_finish(k, outside(s)));
        }
    }
}


/// The threads among the first `m` of `ord`.
pub open spec fn first_of(ord: Seq<int>, m: int) -> spec_fn(int) -> bool {
    |i: int| ord.take(m).contains(i)
}

impl DetectorState {
    /// `ord` lists distinct threads, every thread that holds something among
    /// them, and each listed thread gets all it requests once the threads
    /// listed before it have given back what they hold.
    pub open spec fn safe_order(self, ord: Seq<int>) -> bool {
        &&& forall|m: int| 0 <= m < ord.len() ==> 0 <= #[trigger] ord[m] < self.threads()
        &&& forall|j: int, k: int| 0 <= j < k < ord.len() ==> #[trigger] ord[j] != #[trigger] ord[k]
        &&& forall|i: int| 0 <= i < self.threads() && !#[trigger] self.holds_nothing(i) ==> ord.contains(i)
        &&& forall|m: int| 0 <= m < ord.len() ==> #[trigger] self.can_finish(ord[m], first_of(ord, m))
    }
}

/// A sum over `p` is at most the sum over `q` when every thread counted by
/// `p` and not by `q` holds none of the resource.
proof fn lemma_held_mono_zero(a: Seq<Seq<u32>>, p: spec_fn(int) -> bool, q: spec_fn(int) -> bool, r: int, n: int)
    requires
        forall|i: int| #![trigger p(i)] #![trigger q(i)] 0 <= i < n && p(i) && !q(i) ==> a[i][r] == 0,
    ensures
        held(a, p, r, n) <= held(a, q, r, n),
    decreases n,
{
    if n > 0 {
        lemma_held_mono_zero(a, p, q, r, n - 1);
        if p(n - 1) && !q(n - 1) {
            assert(a[n - 1][r] == 0);
        }
    }
}

/// Threads below `k` that hold something and are not in `ord`.
spec fn pending(st: DetectorState, ord: Seq<int>, k: int) -> nat
    decreases k,
{
    if k <= 0 {
        0
    } else {
        pending(st, ord, k - 1) + if !st.holds_nothing(k - 1) && !ord.contains(k - 1) { 1nat } else { 0nat }
    }
}

proof fn lemma_pending_push(st: DetectorState, ord: Seq<int>, i: int, k: int)
    requires
        !ord.contains(i),
    ensures
        pending(st, ord.push(i), k) + (if 0 <= i < k && !st.holds_nothing(i) { 1int } else { 0int })
            == pending(st, ord, k),
    decreases k,
{
    if k > 0 {
        lemma_pending_push(st, ord, i, k - 1);
        let j = k - 1;
        if ord.push(i).contains(j) {
            let x = choose|x: int| 0 <= x < ord.push(i).len() && ord.push(i)[x] == j;
            if x < ord.len() {
                assert(ord[x] == j);
            }
        }
        if ord.contains(j) {
            let x = choose|x: int| 0 <= x < ord.len() && ord[x] == j;
            assert(ord.push(i)[x] == j);
        }
        if j == i {
            assert(ord.push(i)[ord.len() as int] == i);
        }
    }
}

proof fn lemma_pending_pos(st: DetectorState, ord: Seq<int>, i: int, k: int)
    requires
        0 <= i < k,
        !st.holds_nothing(i),
        !ord.contains(i),
    ensures
        pending(st, ord, k) >= 1,
    decreases k,
{
    if i < k - 1 {
        lemma_pending_pos(st, ord, i, k - 1);
    }
}

/// Every safe order can be completed to one that lists every thread that
/// holds something, as long as no set of threads blocks.
proof fn lemma_complete_safe_order(st: DetectorState, ord: Seq<int>) -> (full: Seq<int>)
    requires
        st.well_shaped(),
        !st.deadlocked(),
        forall|m: int| 0 <= m < ord.len() ==> 0 <= #[trigger] ord[m] < st.threads(),
        forall|j: int, k: int| 0 <= j < k < ord.len() ==> #[trigger] ord[j] != #[trigger] ord[k],
        forall|m: int| 0 <= m < ord.len() ==> #[trigger] st.can_finish(ord[m], first_of(ord, m)),
    ensures
        st.safe_order(full),
    decreases pending(st, ord, st.threads()),
{
    let n = st.threads();
    let s = Set::new(|i: int| 0 <= i < n && !st.holds_nothing(i) && !ord.contains(i));
    if forall|i: int| !s.contains(i) {
        assert forall|i: int| 0 <= i < n && !#[trigger] st.holds_nothing(i) implies ord.contains(i) by {
            assert(!s.contains(i));
        }
        ord
    } else {
        assert(!st.blocked_set(s));
        let i = choose|i: int| s.contains(i) && st.can_finish(i, outside(s));
        let ord2 = ord.push(i);
        let len = ord.len() as int;
        assert(ord2.take(len) =~= ord);
        assert(ord.take(len) =~= ord);
        assert forall|r: int| 0 <= r < st.resources() implies #[trigger] st.request[i][r]
            <= st.available[r] + held(st.allocation, first_of(ord2, len), r, n) by {
            assert(st.request[i][r] <= st.available[r] + held(st.allocation, outside(s), r, n));
            assert forall|j: int| #![trigger outside(s)(j)] #![trigger first_of(ord2, len)(j)]
                0 <= j < n && outside(s)(j) && !first_of(ord2, len)(j) implies st.allocation[j][r] == 0 by {
                assert(!ord.contains(j));
                assert(st.holds_nothing(j));
            }
            lemma_held_mono_zero(st.allocation, outside(s), first_of(ord2, len), r, n);
        }
        assert(st.can_finish(i, first_of(ord2, len)));
        assert forall|m: int| 0 <= m < ord2.len() implies #[trigger] st.can_finish(ord2[m], first_of(ord2, m)) by {
            if m < len {
                assert(ord2.take(m) =~= ord.take(m));
                assert(first_of(ord2, m) =~= first_of(ord, m));
                assert(ord2[m] == ord[m]);
            }
        }
        assert forall|j: int, k: int| 0 <= j < k < ord2.len() implies #[trigger] ord2[j] != #[trigger] ord2[k] by {
            if k == len {
                assert(ord.contains(ord[j]) || j >= len);
            }
        }
        assert forall|m: int| 0 <= m < ord2.len() implies 0 <= #[trigger] ord2[m] < st.threads() by {
            if m < len {
                assert(ord2[m] == ord[m]);
            }
        }
        lemma_pending_push(st, ord, i, n);
        lemma_complete_safe_order(st, ord2)
    }
}

/// No thread of a blocked set is listed in a safe order: the first listed
/// would get all it requests from what the threads listed before it, none
/// of them in the set, give back.
proof fn lemma_safe_order_avoids_blocked(st: DetectorState, ord: Seq<int>, s: Set<int>, m: int)
    requires
        st.safe_order(ord),
        st.blocked_set(s),
        0 <= m <= ord.len(),
    ensures
        forall|l: int| 0 <= l < m ==> !s.contains(#[trigger] ord[l]),
    decreases m,
{
    if m > 0 {
        lemma_safe_order_avoids_blocked(st, ord, s, m - 1);
        let t = ord[m - 1];
        if s.contains(t) {
            assert forall|r: int| 0 <= r < st.resources() implies #[trigger] st.request[t][r]
                <= st.available[r] + held(st.allocation, outside(s), r, st.threads()) by {
                assert(st.can_finish(ord[m - 1], first_of(ord, m - 1)));
                assert forall|j: int| #![trigger first_of(ord, m - 1)(j)] #![trigger outside(s)(j)]
                    0 <= j < st.threads() && first_of(ord, m - 1)(j) implies outside(s)(j) by {
                    let pre = ord.take(m - 1);
                    let x = choose|x: int| 0 <= x < pre.len() && #[trigger] pre[x] == j;
                    assert(ord[x] == j);
                }
                lemma_held_mono(st.allocation, first_of(ord, m - 1), outside(s), r, st.threads());
            }
            assert(st.can_finish(t, outside(s)));
        }
    }
}

/// The threads are deadlocked exactly when there is no safe order: no way to
/// list the threads that hold something so that each gets all it requests
/// once those listed before it have given back what they hold.
pub proof fn lemma_deadlock_iff_no_safe_order(st: DetectorState)
    requires
        st.well_shaped(),
    ensures
        st.deadlocked() <==> !exists|ord: Seq<int>| st.safe_order(ord),
{
    if st.deadlocked() {
        let s = choose|s: Set<int>| st.blocked_set(s);
        assert forall|ord: Seq<int>| !st.safe_order(ord) by {
            if st.safe_order(ord) {
                lemma_safe_order_avoids_blocked(st, ord, s, ord.len() as int);
                let i = choose|i: int| s.contains(i);
                assert(ord.contains(i));
                let x = choose|x: int| 0 <= x < ord.len() && ord[x] == i;
                assert(!s.contains(ord[x]));
            }
        }
    } else {
        let full = lemma_complete_safe_order(st, Seq::<int>::empty());
        assert(st.safe_order(full));
    }
}


/// A request moves exactly one unit: when none is available it adds one to
/// what the thread waits for of the resource, else one unit goes from the
/// available vector to what the thread holds; every other count stays.
pub proof fn lemma_request_moves_one_unit(st: DetectorState, tid: int, rid: int)
    requires
        st.well_shaped(),
        0 <= tid < st.threads(),
        0 <= rid < st.resources(),
        st.available[rid] == 0 ==> st.request[tid][rid] < u32::MAX,
        st.available[rid] > 0 ==> st.allocation[tid][rid] < u32::MAX,
    ensures
        ({
            let e = st.after_request(tid, rid);
            &&& e.threads() == st.threads()
            &&& e.resources() == st.resources()
            &&& forall|i: int, r: int| 0 <= i < st.threads() && 0 <= r < st.resources() ==> {
                &&& #[trigger] e.request[i][r] == st.request[i][r]
                    + if st.available[rid] == 0 && i == tid && r == rid { 1int } else { 0int }
                &&& #[trigger] e.allocation[i][r] == st.allocation[i][r]
                    + if st.available[rid] > 0 && i == tid && r == rid { 1int } else { 0int }
            }
            &&& forall|r: int| 0 <= r < st.resources() ==> #[trigger] e.available[r] == st.available[r]
                - if st.available[rid] > 0 && r == rid { 1int } else { 0int }
        }),
{
    let e = st.after_request(tid, rid);
    assert forall|i: int, r: int| 0 <= i < st.threads() && 0 <= r < st.resources() implies {
        &&& #[trigger] e.request[i][r] == st.request[i][r]
            + if st.available[rid] == 0 && i == tid && r == rid { 1int } else { 0int }
        &&& #[trigger] e.allocation[i][r] == st.allocation[i][r]
            + if st.available[rid] > 0 && i == tid && r == rid { 1int } else { 0int }
    } by {
        assert(st.request[i].len() == st.resources());
        assert(st.allocation[i].len() == st.resources());
    }
}

/// Two refused requests by a thread for a resource of which nothing is
/// available leave it waiting for two more units.
pub proof fn lemma_refused_requests_add_up(st: DetectorState, tid: int, rid: int)
    requires
        st.well_shaped(),
        0 <= tid < st.threads(),
        0 <= rid < st.resources(),
        st.available[rid] == 0,
        st.request[tid][rid] + 2 <= u32::MAX,
    ensures
        st.after_request(tid, rid).after_request(tid, rid).request[tid][rid] == st.request[tid][rid] + 2,
{
    lemma_request_moves_one_unit(st, tid, rid);
    lemma_request_keeps_totals(st, tid, rid);
    let e = st.after_request(tid, rid);
    assert(e.request[tid][rid] == st.request[tid][rid] + 1);
    lemma_request_moves_one_unit(e, tid, rid);
}

} // verus!

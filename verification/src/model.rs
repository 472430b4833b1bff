//! The task model: the collection of tasks held in memory and the
//! mutations a command may apply to it (add, mark done, remove with
//! renumbering, clear).

use vstd::prelude::*;

verus! {

/// Mathematical model of a single task: every field as a plain value.
pub ghost struct TaskView {
    pub id: Seq<char>,
    pub index: u32,
    pub title: Seq<char>,
    pub is_complete: bool,
    pub created_at: Seq<char>,
}

/// One task. `id` is a stable identifier assigned at creation and never
/// reused; `index` is the 1-based handle shown to the user, renumbered
/// after removals; `created_at` is the creation instant as an RFC 3339
/// UTC timestamp string.
#[derive(Debug)]
pub struct Task {
    pub id: String,
    pub index: u32,
    pub title: String,
    pub is_complete: bool,
    pub created_at: String,
}

impl View for Task {
    type V = TaskView;

    open spec fn view(&self) -> TaskView {
        TaskView {
            id: self.id@,
            index: self.index,
            title: self.title@,
            is_complete: self.is_complete,
            created_at: self.created_at@,
        }
    }
}

/// Errors a command can fail with.
#[derive(Debug, Clone, Copy, PartialEq, Eq, Structural)]
pub enum TodoError {
    /// No task in the collection carries the given index.
    NotFound { index: u32 },
    /// The persisted store document is malformed.
    Decode,
}

/// All `index` fields are pairwise distinct.
pub open spec fn indices_unique(s: Seq<TaskView>) -> bool {
    forall|i: int, j: int| 0 <= i < j < s.len() ==> s[i].index != s[j].index
}

/// The largest index present, or 0 for an empty collection.
pub open spec fn max_index(s: Seq<TaskView>) -> int
    decreases s.len(),
{
    if s.len() == 0 {
        0
    } else {
        let m = max_index(s.drop_last());
        if s.last().index > m {
            s.last().index as int
        } else {
            m
        }
    }
}

/// The index a newly added task receives.
pub open spec fn next_index(s: Seq<TaskView>) -> int {
    max_index(s) + 1
}

proof fn lemma_max_index_bounds(s: Seq<TaskView>)
    ensures
        0 <= max_index(s) <= u32::MAX,
        forall|i: int| 0 <= i < s.len() ==> #[trigger] s[i].index <= max_index(s),
    decreases s.len(),
{
    if s.len() > 0 {
        lemma_max_index_bounds(s.drop_last());
        assert(forall|i: int| 0 <= i < s.len() - 1 ==> s.drop_last()[i] == s[i]);
    }
}

/// Position of the first task carrying `index`, or -1 when none does.
pub open spec fn first_pos(s: Seq<TaskView>, index: u32) -> int
    decreases s.len(),
{
    if s.len() == 0 {
        -1
    } else if s[0].index == index {
        0
    } else {
        let p = first_pos(s.drop_first(), index);
        if p < 0 {
            -1
        } else {
            p + 1
        }
    }
}

/// What marking `index` done leaves behind: the first task carrying the
/// index completed, everything else untouched.
pub open spec fn spec_done(s: Seq<TaskView>, index: u32) -> Seq<TaskView> {
    let p = first_pos(s, index);
    if p < 0 {
        s
    } else {
        s.update(p, TaskView { is_complete: true, ..s[p] })
    }
}

proof fn lemma_first_pos(s: Seq<TaskView>, index: u32)
    ensures
        first_pos(s, index) < 0 ==> forall|i: int|
            0 <= i < s.len() ==> #[trigger] s[i].index != index,
        first_pos(s, index) >= 0 ==> {
            let p = first_pos(s, index);
            &&& 0 <= p < s.len()
            &&& s[p].index == index
            &&& forall|i: int| 0 <= i < p ==> #[trigger] s[i].index != index
        },
    decreases s.len(),
{
    if s.len() > 0 && s[0].index != index {
        lemma_first_pos(s.drop_first(), index);
        let p = first_pos(s, index);
        if p < 0 {
            assert forall|i: int| 0 <= i < s.len() implies #[trigger] s[i].index != index by {
                if i >= 1 {
                    assert(s.drop_first()[i - 1] == s[i]);
                    assert(s.drop_first()[i - 1].index != index);
                }
            }
        } else {
            assert(s[p] == s.drop_first()[p - 1]);
            assert forall|i: int| 0 <= i < p implies #[trigger] s[i].index != index by {
                if i >= 1 {
                    assert(s.drop_first()[i - 1] == s[i]);
                    assert(s.drop_first()[i - 1].index != index);
                }
            }
        }
    }
}

/// `first_pos` looks only at the `index` fields: two collections that
/// agree on them agree on it.
proof fn lemma_first_pos_same_indices(s: Seq<TaskView>, s2: Seq<TaskView>, index: u32)
    requires
        s.len() == s2.len(),
        forall|k: int| 0 <= k < s.len() ==> #[trigger] s2[k].index == s[k].index,
    ensures
        first_pos(s2, index) == first_pos(s, index),
    decreases s.len(),
{
    if s.len() > 0 && s[0].index != index {
        assert(forall|k: int|
            0 <= k < s.len() - 1 ==> #[trigger] s.drop_first()[k] == s[k + 1]
                && s2.drop_first()[k] == s2[k + 1]);
        lemma_first_pos_same_indices(s.drop_first(), s2.drop_first(), index);
    }
}

/// Marking a task done is idempotent: marking the same index again
/// changes nothing further, and an already-complete task stays complete.
pub proof fn lemma_done_idempotent(s: Seq<TaskView>, index: u32)
    ensures
        spec_done(spec_done(s, index), index) == spec_done(s, index),
{
    lemma_first_pos(s, index);
    let p = first_pos(s, index);
    if p >= 0 {
        let t1 = TaskView { is_complete: true, ..s[p] };
        let s2 = s.update(p, t1);
        assert(forall|k: int| 0 <= k < s.len() ==> #[trigger] s2[k].index == s[k].index);
        lemma_first_pos_same_indices(s, s2, index);
        assert((TaskView { is_complete: true, ..s2[p] }) == t1);
        assert(s2.update(p, t1) =~= s2);
    }
}

/// Index uniqueness is kept by adding: a task that receives the next
/// free index never collides with one already present.
pub proof fn lemma_add_keeps_indices_unique(s: Seq<TaskView>, t: TaskView)
    requires
        indices_unique(s),
        t.index == next_index(s),
    ensures
        indices_unique(s.push(t)),
{
    lemma_max_index_bounds(s);
    assert forall|i: int, j: int|
        0 <= i < j < s.push(t).len() implies s.push(t)[i].index != s.push(t)[j].index by {
        if j < s.len() {
            assert(s.push(t)[i] == s[i] && s.push(t)[j] == s[j]);
        } else {
            assert(s.push(t)[i] == s[i]);
            assert(s[i].index <= max_index(s));
        }
    }
}

/// Index uniqueness is kept by marking done: only a completion flag
/// changes, never an index.
pub proof fn lemma_done_keeps_indices_unique(s: Seq<TaskView>, index: u32)
    requires
        indices_unique(s),
    ensures
        indices_unique(spec_done(s, index)),
        spec_done(s, index).len() == s.len(),
{
    lemma_first_pos(s, index);
}

/// Every index is at least 1.
pub open spec fn indices_positive(s: Seq<TaskView>) -> bool {
    forall|i: int| 0 <= i < s.len() ==> 1 <= #[trigger] s[i].index
}

/// Pairwise-distinct indices, each at least 1, cannot outnumber the
/// largest of them.
proof fn lemma_unique_indices_bound_len(s: Seq<TaskView>)
    requires
        indices_unique(s),
        indices_positive(s),
    ensures
        s.len() <= max_index(s),
{
    let idxs = s.map_values(|t: TaskView| t.index as int);
    assert(idxs.no_duplicates()) by {
        assert(forall|i: int, j: int|
            0 <= i < j < idxs.len() ==> #[trigger] idxs[i] != #[trigger] idxs[j]);
    }
    idxs.unique_seq_to_set();
    lemma_max_index_bounds(s);
    let m = max_index(s);
    assert(idxs.to_set().subset_of(vstd::set_lib::set_int_range(1, m + 1))) by {
        assert forall|x: int| idxs.to_set().contains(x) implies vstd::set_lib::set_int_range(
            1,
            m + 1,
        ).contains(x) by {
            let k = choose|k: int| 0 <= k < idxs.len() && idxs[k] == x;
            assert(1 <= s[k].index <= m);
        }
    }
    vstd::set_lib::lemma_int_range(1, m + 1);
    vstd::set_lib::lemma_len_subset(idxs.to_set(), vstd::set_lib::set_int_range(1, m + 1));
}

/// One mutation of the collection, as the store sees it.
pub ghost enum StoreOp {
    Add { id: Seq<char>, title: Seq<char>, created_at: Seq<char> },
    Remove { index: u32 },
}

/// Runs a sequence of mutations from the empty collection: an `Add`
/// appends a fresh incomplete task under the next free index (where one
/// exists below the u32 limit), a `Remove` that finds its index removes,
/// sorts and renumbers, and one that does not leaves the collection
/// unchanged.
pub open spec fn run_ops(ops: Seq<StoreOp>) -> Seq<TaskView>
    decreases ops.len(),
{
    if ops.len() == 0 {
        Seq::empty()
    } else {
        let s = run_ops(ops.drop_last());
        match ops.last() {
            StoreOp::Add { id, title, created_at } => if next_index(s) <= u32::MAX {
                s.push(
                    TaskView {
                        id: id,
                        index: next_index(s) as u32,
                        title: title,
                        is_complete: false,
                        created_at: created_at,
                    },
                )
            } else {
                s
            },
            StoreOp::Remove { index } => if exists|i: int|
                0 <= i < s.len() && #[trigger] s[i].index == index {
                spec_remove(s, index)
            } else {
                s
            },
        }
    }
}

/// Index uniqueness over whole histories: every collection reachable
/// from the empty one by adds and removals carries pairwise-distinct,
/// 1-based indices.
pub proof fn lemma_reachable_indices_unique(ops: Seq<StoreOp>)
    ensures
        indices_unique(run_ops(ops)),
        indices_positive(run_ops(ops)),
        run_ops(ops).len() <= u32::MAX,
    decreases ops.len(),
{
    if ops.len() > 0 {
        lemma_reachable_indices_unique(ops.drop_last());
        let s = run_ops(ops.drop_last());
        let r = run_ops(ops);
        lemma_max_index_bounds(s);
        match ops.last() {
            StoreOp::Add { id, title, created_at } => {
                if next_index(s) <= u32::MAX {
                    let tv = TaskView {
                        id: id,
                        index: next_index(s) as u32,
                        title: title,
                        is_complete: false,
                        created_at: created_at,
                    };
                    lemma_add_keeps_indices_unique(s, tv);
                    lemma_unique_indices_bound_len(r);
                    lemma_max_index_bounds(r);
                }
            },
            StoreOp::Remove { index } => {
                if exists|i: int| 0 <= i < s.len() && #[trigger] s[i].index == index {
                    lemma_remove_renumbers_contiguously(s, index);
                    assert(indices_positive(r));
                }
            },
        }
    }
}

/// Renumbering contiguity over whole histories: after any history whose
/// last step is a removal that found its index, the collection of size N
/// carries exactly the indices 1 through N.
pub proof fn lemma_reachable_remove_contiguous(ops: Seq<StoreOp>, index: u32)
    requires
        ops.len() >= 1,
        ops.last() == (StoreOp::Remove { index }),
        exists|i: int|
            0 <= i < run_ops(ops.drop_last()).len() && #[trigger] run_ops(ops.drop_last())[i].index
                == index,
    ensures
        forall|i: int|
            0 <= i < run_ops(ops).len() ==> #[trigger] run_ops(ops)[i].index == i + 1,
        indices_unique(run_ops(ops)),
    decreases 0int,
{
    lemma_reachable_indices_unique(ops.drop_last());
    lemma_remove_renumbers_contiguously(run_ops(ops.drop_last()), index);
    assert(run_ops(ops) == spec_remove(run_ops(ops.drop_last()), index));
}

/// On an empty collection the first added task receives index 1.
pub proof fn lemma_first_index_is_one()
    ensures
        next_index(Seq::<TaskView>::empty()) == 1,
{
}

/// The tasks that survive removing `index`, in their original order.
pub open spec fn keeps(s: Seq<TaskView>, index: u32) -> Seq<TaskView>
    decreases s.len(),
{
    if s.len() == 0 {
        Seq::empty()
    } else if s[0].index == index {
        keeps(s.drop_first(), index)
    } else {
        seq![s[0]] + keeps(s.drop_first(), index)
    }
}

proof fn lemma_keeps(s: Seq<TaskView>, index: u32)
    ensures
        keeps(s, index).len() <= s.len(),
        (exists|i: int| 0 <= i < s.len() && #[trigger] s[i].index == index) ==> keeps(
            s,
            index,
        ).len() < s.len(),
        !(exists|i: int| 0 <= i < s.len() && #[trigger] s[i].index == index) ==> keeps(s, index)
            == s,
    decreases s.len(),
{
    if s.len() > 0 {
        lemma_keeps(s.drop_first(), index);
        assert(forall|i: int| 0 <= i < s.len() - 1 ==> s.drop_first()[i] == s[i + 1]);
        if s[0].index != index {
            if !(exists|i: int| 0 <= i < s.len() && #[trigger] s[i].index == index) {
                assert(forall|i: int|
                    0 <= i < s.drop_first().len() ==> #[trigger] s.drop_first()[i].index != index);
                assert(keeps(s, index) =~= s);
            }
            if exists|i: int| 0 <= i < s.len() && #[trigger] s[i].index == index {
                let w = choose|i: int| 0 <= i < s.len() && #[trigger] s[i].index == index;
                assert(s.drop_first()[w - 1].index == index);
            }
        }
    }
}

/// Ascending by the `index` field.
pub open spec fn sorted_by_index(s: Seq<TaskView>) -> bool {
    forall|i: int, j: int| 0 <= i < j < s.len() ==> s[i].index <= s[j].index
}

/// Inserts `t` after every task whose index is at most `t.index`, so the
/// sort built on it is stable.
pub open spec fn ins_sorted(s: Seq<TaskView>, t: TaskView) -> Seq<TaskView>
    decreases s.len(),
{
    if s.len() == 0 {
        seq![t]
    } else if s.last().index <= t.index {
        s.push(t)
    } else {
        ins_sorted(s.drop_last(), t).push(s.last())
    }
}

/// Insertion sort of the collection by `index`, stable.
pub open spec fn isort(s: Seq<TaskView>) -> Seq<TaskView>
    decreases s.len(),
{
    if s.len() == 0 {
        Seq::empty()
    } else {
        ins_sorted(isort(s.drop_last()), s.last())
    }
}

proof fn lemma_ins_sorted_sorted(sp: Seq<TaskView>, t: TaskView)
    requires
        sorted_by_index(sp),
    ensures
        sorted_by_index(ins_sorted(sp, t)),
        ins_sorted(sp, t).len() == sp.len() + 1,
        forall|k: int|
            0 <= k < ins_sorted(sp, t).len() ==> (#[trigger] ins_sorted(sp, t)[k].index <= t.index
                || (exists|m: int| 0 <= m < sp.len() && ins_sorted(sp, t)[k] == sp[m])),
    decreases sp.len(),
{
    if sp.len() == 0 {
    } else if sp.last().index <= t.index {
        assert(forall|i: int| 0 <= i < sp.len() ==> #[trigger] sp[i].index <= sp.last().index);
    } else {
        let dl = sp.drop_last();
        assert(forall|i: int, j: int|
            0 <= i < j < dl.len() ==> #[trigger] dl[i].index <= #[trigger] dl[j].index);
        lemma_ins_sorted_sorted(dl, t);
        let inner = ins_sorted(dl, t);
        let r = inner.push(sp.last());
        assert forall|i: int, j: int| 0 <= i < j < r.len() implies r[i].index <= r[j].index by {
            if j < inner.len() {
            } else {
                assert(r[j] == sp.last());
                if r[i].index <= t.index {
                } else {
                    let m = choose|m: int| 0 <= m < dl.len() && inner[i] == dl[m];
                    assert(sp[m].index <= sp.last().index);
                }
            }
        }
        assert forall|k: int| 0 <= k < r.len() implies (#[trigger] r[k].index <= t.index || (
        exists|m: int| 0 <= m < sp.len() && r[k] == sp[m])) by {
            if k < inner.len() {
                if inner[k].index > t.index {
                    let m = choose|m: int| 0 <= m < dl.len() && inner[k] == dl[m];
                    assert(r[k] == sp[m]);
                }
            } else {
                assert(r[k] == sp[sp.len() - 1]);
            }
        }
    }
}

proof fn lemma_isort_sorted(s: Seq<TaskView>)
    ensures
        sorted_by_index(isort(s)),
        isort(s).len() == s.len(),
    decreases s.len(),
{
    if s.len() > 0 {
        lemma_isort_sorted(s.drop_last());
        lemma_ins_sorted_sorted(isort(s.drop_last()), s.last());
    }
}

/// Where the scan of the exec insertion sort stops is where `ins_sorted`
/// places the element.
proof fn lemma_ins_sorted_at(sp: Seq<TaskView>, t: TaskView, j: int)
    requires
        sorted_by_index(sp),
        0 <= j <= sp.len(),
        forall|k: int| j <= k < sp.len() ==> #[trigger] sp[k].index > t.index,
        j > 0 ==> sp[j - 1].index <= t.index,
    ensures
        ins_sorted(sp, t) == sp.take(j) + seq![t] + sp.skip(j),
    decreases sp.len(),
{
    if sp.len() == 0 {
        assert(ins_sorted(sp, t) =~= sp.take(j) + seq![t] + sp.skip(j));
    } else if sp.last().index <= t.index {
        assert(j == sp.len());
        assert(ins_sorted(sp, t) =~= sp.take(j) + seq![t] + sp.skip(j));
    } else {
        let dl = sp.drop_last();
        assert(sp[sp.len() - 1].index > t.index);
        assert(j < sp.len());
        assert(forall|i: int, j2: int|
            0 <= i < j2 < dl.len() ==> #[trigger] dl[i].index <= #[trigger] dl[j2].index);
        lemma_ins_sorted_at(dl, t, j);
        assert(ins_sorted(sp, t) =~= sp.take(j) + seq![t] + sp.skip(j));
    }
}

/// The index the task at position `i` receives when the collection is
/// renumbered; the value wraps as a 32-bit assignment does.
pub open spec fn renumber_index(i: int) -> u32 {
    (((i + 1) % 0x1_0000_0000) as u32)
}

/// Contiguous 1-based indices reassigned in order.
pub open spec fn renumber(s: Seq<TaskView>) -> Seq<TaskView> {
    Seq::new(s.len(), |i: int| TaskView { index: renumber_index(i), ..s[i] })
}

/// What a successful `remove` leaves behind: the surviving tasks, sorted
/// by their old index, renumbered 1 upward.
pub open spec fn spec_remove(s: Seq<TaskView>, index: u32) -> Seq<TaskView> {
    renumber(isort(keeps(s, index)))
}

/// Renumbering contiguity: after a removal the surviving collection of
/// size N carries exactly the indices 1 through N, so they are unique.
pub proof fn lemma_remove_renumbers_contiguously(s: Seq<TaskView>, index: u32)
    requires
        s.len() <= u32::MAX,
    ensures
        spec_remove(s, index).len() <= s.len(),
        forall|i: int|
            0 <= i < spec_remove(s, index).len() ==> #[trigger] spec_remove(s, index)[i].index == i
                + 1,
        indices_unique(spec_remove(s, index)),
{
    lemma_keeps(s, index);
    lemma_isort_sorted(keeps(s, index));
    assert forall|i: int|
        0 <= i < spec_remove(s, index).len() implies #[trigger] spec_remove(s, index)[i].index == i
        + 1 by {
        assert(spec_remove(s, index)[i].index == renumber_index(i));
    }
}

/// Relies on uuid::Uuid::new_v4, rendered through uuid's hyphenated
/// display form: a freshly drawn random identifier. The value is
/// random, so nothing is promised of it.
#[verifier::external_body]
fn fresh_id() -> String {
    uuid::Uuid::new_v4().to_string()
}

/// Relies on chrono::Utc::now, rendered by chrono's
/// DateTime::to_rfc3339: the current instant as an RFC 3339 UTC
/// timestamp string. The value depends on the clock, so nothing is
/// promised of it.
#[verifier::external_body]
fn now_rfc3339() -> String {
    chrono::Utc::now().to_rfc3339()
}

proof fn lemma_map_view_remove(v: Seq<Task>, i: int)
    requires
        0 <= i < v.len(),
    ensures
        v.remove(i).map_values(|t: Task| t@) == v.map_values(|t: Task| t@).remove(i),
{
    assert(v.remove(i).map_values(|t: Task| t@) =~= v.map_values(|t: Task| t@).remove(i));
}

proof fn lemma_map_view_insert(v: Seq<Task>, i: int, t: Task)
    requires
        0 <= i <= v.len(),
    ensures
        v.insert(i, t).map_values(|t: Task| t@) == v.map_values(|t: Task| t@).insert(i, t@),
{
    assert(v.insert(i, t).map_values(|t: Task| t@) =~= v.map_values(|t: Task| t@).insert(
        i,
        t@,
    ));
}

/// Stable insertion sort of the vector by task index, matching `isort`.
fn sort_by_index(v: &mut Vec<Task>)
    ensures
        final(v)@.map_values(|t: Task| t@) == isort(old(v)@.map_values(|t: Task| t@)),
{
    let ghost sv = old(v)@.map_values(|t: Task| t@);
    proof {
        assert(v@.map_values(|t: Task| t@) =~= isort(sv.take(0)) + sv.skip(0));
    }
    let mut i: usize = 0;
    while i < v.len()
        invariant
            sv == old(v)@.map_values(|t: Task| t@),
            v@.len() == sv.len(),
            i <= sv.len(),
            v@.map_values(|t: Task| t@) == isort(sv.take(i as int)) + sv.skip(i as int),
        decreases v@.len() - i,
    {
        let ghost prefix = isort(sv.take(i as int));
        proof {
            lemma_isort_sorted(sv.take(i as int));
            assert(v@.map_values(|t: Task| t@)[i as int] == sv.skip(i as int)[0]);
        }
        let ghost vv = v@;
        let t = v.remove(i);
        proof {
            assert(t@ == sv[i as int]);
            lemma_map_view_remove(vv, i as int);
            assert(v@.map_values(|t: Task| t@) =~= prefix + sv.skip(i as int + 1));
        }
        let mut j: usize = i;
        while j > 0 && v[j - 1].index > t.index
            invariant
                j <= i,
                i < sv.len(),
                prefix == isort(sv.take(i as int)),
                sorted_by_index(prefix),
                prefix.len() == i,
                v@.len() == sv.len() - 1,
                v@.map_values(|t: Task| t@) == prefix + sv.skip(i as int + 1),
                t@ == sv[i as int],
                forall|k: int| j <= k < i ==> #[trigger] prefix[k].index > t@.index,
            decreases j,
        {
            proof {
                assert(v@.map_values(|t: Task| t@)[j - 1] == prefix[j - 1]);
            }
            j = j - 1;
        }
        proof {
            if j > 0 {
                assert(v@.map_values(|t: Task| t@)[j - 1] == prefix[j - 1]);
            }
        }
        let ghost before_insert = v@;
        v.insert(j, t);
        proof {
            lemma_map_view_insert(before_insert, j as int, t);
            lemma_ins_sorted_at(prefix, t@, j as int);
            assert(v@.map_values(|t: Task| t@) =~= (prefix.take(j as int) + seq![t@]
                + prefix.skip(j as int)) + sv.skip(i as int + 1));
            assert(sv.take(i as int + 1).drop_last() =~= sv.take(i as int));
            assert(sv.take(i as int + 1).last() == sv[i as int]);
            assert(isort(sv.take(i as int + 1)) == ins_sorted(prefix, sv[i as int]));
            assert(v@.map_values(|t: Task| t@) =~= isort(sv.take(i as int + 1)) + sv.skip(
                i as int + 1,
            ));
        }
        i = i + 1;
    }
    proof {
        assert(sv.take(sv.len() as int) =~= sv);
        assert(v@.map_values(|t: Task| t@) =~= isort(sv));
    }
}

/// The collection of tasks, in display order.
#[derive(Debug)]
pub struct TodoList {
    tasks: Vec<Task>,
}

impl View for TodoList {
    type V = Seq<TaskView>;

    closed spec fn view(&self) -> Seq<TaskView> {
        self.tasks@.map_values(|t: Task| t@)
    }
}

impl TodoList {
    /// The empty collection.
    pub fn new() -> (r: TodoList)
        ensures
            r@ =~= Seq::<TaskView>::empty(),
    {
        TodoList { tasks: Vec::new() }
    }

    /// Wraps an already-built vector of tasks (as the store decoder
    /// produces) without changing it.
    pub fn from_tasks(tasks: Vec<Task>) -> (r: TodoList)
        ensures
            r@ == tasks@.map_values(|t: Task| t@),
    {
        TodoList { tasks }
    }

    /// All tasks, in display order.
    pub fn tasks(&self) -> (r: &Vec<Task>)
        ensures
            r@.map_values(|t: Task| t@) == self@,
    {
        &self.tasks
    }

    pub fn len(&self) -> (r: usize)
        ensures
            r == self@.len(),
    {
        self.tasks.len()
    }

    pub fn is_empty(&self) -> (r: bool)
        ensures
            r == (self@.len() == 0),
    {
        self.tasks.len() == 0
    }

    /// Largest index currently present, or 0 when empty.
    pub fn max_index(&self) -> (r: u32)
        ensures
            r == max_index(self@),
    {
        let mut m: u32 = 0;
        let mut i: usize = 0;
        while i < self.tasks.len()
            invariant
                i <= self.tasks.len(),
                m == max_index(self@.take(i as int)),
            decreases self.tasks.len() - i,
        {
            proof {
                assert(self@.take(i + 1).drop_last() =~= self@.take(i as int));
                assert(self@.take(i + 1).last() == self@[i as int]);
            }
            if self.tasks[i].index > m {
                m = self.tasks[i].index;
            }
            i = i + 1;
        }
        proof {
            assert(self@.take(self.tasks@.len() as int) =~= self@);
        }
        m
    }

    /// Creates a task with the given title, a fresh identifier and the
    /// current timestamp, assigns it the next free index (`max + 1`, so 1
    /// on an empty collection) and appends it. Never rejects a title,
    /// including the empty one.
    pub fn add(&mut self, title: String) -> (r: u32)
        requires
            next_index(old(self)@) <= u32::MAX,
        ensures
            r == next_index(old(self)@),
            final(self)@.len() == old(self)@.len() + 1,
            final(self)@.drop_last() == old(self)@,
            final(self)@.last().index == next_index(old(self)@),
            final(self)@.last().title == title@,
            !final(self)@.last().is_complete,
            indices_unique(old(self)@) ==> indices_unique(final(self)@),
    {
        let idx = self.max_index() + 1;
        let task = Task {
            id: fresh_id(),
            index: idx,
            title,
            is_complete: false,
            created_at: now_rfc3339(),
        };
        let ghost tv = task@;
        let ghost pre = self@;
        self.tasks.push(task);
        proof {
            assert(self@ =~= pre.push(tv));
            assert(self@.drop_last() =~= pre);
            lemma_max_index_bounds(pre);
            if indices_unique(pre) {
                assert forall|i: int, j: int| 0 <= i < j < self@.len() implies self@[i].index
                    != self@[j].index by {
                    if j < pre.len() {
                        assert(self@[i] == pre[i] && self@[j] == pre[j]);
                    } else {
                        assert(self@[i] == pre[i]);
                        assert(pre[i].index <= max_index(pre));
                    }
                }
            }
        }
        idx
    }

    /// Marks the first task carrying `index` as complete and returns its
    /// title; marking an already-complete task again succeeds and leaves
    /// it complete. When no task carries `index` the collection is left
    /// unchanged and `NotFound` is returned.
    pub fn mark_done(&mut self, index: u32) -> (r: Result<String, TodoError>)
        ensures
            (r is Ok) <==> exists|i: int|
                0 <= i < old(self)@.len() && #[trigger] old(self)@[i].index == index,
            match r {
                Ok(title) => {
                    let p = first_pos(old(self)@, index);
                    &&& 0 <= p < old(self)@.len()
                    &&& final(self)@ == spec_done(old(self)@, index)
                    &&& title@ == old(self)@[p].title
                },
                Err(e) => {
                    &&& e == (TodoError::NotFound { index })
                    &&& final(self)@ == old(self)@
                },
            },
            final(self)@.len() == old(self)@.len(),
            forall|k: int| 0 <= k < old(self)@.len() ==> #[trigger] final(self)@[k].index == old(
                self,
            )@[k].index,
            indices_unique(old(self)@) ==> indices_unique(final(self)@),
    {
        proof {
            lemma_first_pos(self@, index);
        }
        let ghost pre = self@;
        let mut i: usize = 0;
        while i < self.tasks.len()
            invariant
                pre == old(self)@,
                self@ == pre,
                i <= pre.len(),
                forall|k: int| 0 <= k < i ==> #[trigger] pre[k].index != index,
            decreases self.tasks.len() - i,
        {
            if self.tasks[i].index == index {
                proof {
                    assert(pre[i as int] == self.tasks@[i as int]@);
                    assert(pre[i as int].index == index);
                    lemma_first_pos(pre, index);
                    let p = first_pos(pre, index);
                    assert(p >= 0);
                    if p < i {
                        assert(pre[p].index != index);
                    }
                    assert(first_pos(pre, index) == i);
                }
                let t = self.tasks.remove(i);
                let title = t.title.clone();
                let done = Task { is_complete: true, ..t };
                self.tasks.insert(i, done);
                proof {
                    assert(self@ =~= pre.update(
                        i as int,
                        TaskView { is_complete: true, ..pre[i as int] },
                    ));
                }
                return Ok(title);
            }
            i = i + 1;
        }
        Err(TodoError::NotFound { index })
    }

    /// Removes every task carrying `index` (at most one when indices are
    /// unique), sorts the survivors by their old index and renumbers them
    /// 1 upward; returns the new size. When no task carries `index` the
    /// collection is left unchanged and `NotFound` is returned.
    pub fn remove(&mut self, index: u32) -> (r: Result<usize, TodoError>)
        ensures
            (r is Ok) <==> exists|i: int|
                0 <= i < old(self)@.len() && #[trigger] old(self)@[i].index == index,
            match r {
                Ok(n) => {
                    &&& final(self)@ == spec_remove(old(self)@, index)
                    &&& n == final(self)@.len()
                    &&& final(self)@.len() < old(self)@.len()
                },
                Err(e) => {
                    &&& e == (TodoError::NotFound { index })
                    &&& final(self)@ == old(self)@
                },
            },
            r is Ok && old(self)@.len() <= u32::MAX ==> forall|i: int|
                0 <= i < final(self)@.len() ==> #[trigger] final(self)@[i].index == i + 1,
            r is Ok && old(self)@.len() <= u32::MAX ==> indices_unique(final(self)@),
    {
        let ghost pre = self@;
        let len_before = self.tasks.len();
        let mut kept: Vec<Task> = Vec::new();
        while self.tasks.len() > 0
            invariant
                pre == old(self)@,
                keeps(pre, index) == kept@.map_values(|t: Task| t@) + keeps(self@, index),
            decreases self.tasks@.len(),
        {
            let ghost cur = self@;
            let ghost kv = kept@.map_values(|t: Task| t@);
            let t = self.tasks.remove(0);
            proof {
                assert(self@ =~= cur.drop_first());
                assert(t@ == cur[0]);
            }
            if t.index != index {
                kept.push(t);
                proof {
                    assert(kept@.map_values(|t: Task| t@) =~= kv.push(cur[0]));
                    assert(kv + (seq![cur[0]] + keeps(cur.drop_first(), index)) =~= kv.push(
                        cur[0],
                    ) + keeps(cur.drop_first(), index));
                }
            }
        }
        proof {
            assert(self@ =~= Seq::<TaskView>::empty());
            assert(keeps(pre, index) =~= kept@.map_values(|t: Task| t@));
            lemma_keeps(pre, index);
        }
        if kept.len() == len_before {
            self.tasks = kept;
            proof {
                assert(self@ == pre);
            }
            return Err(TodoError::NotFound { index });
        }
        sort_by_index(&mut kept);
        proof {
            lemma_isort_sorted(keeps(pre, index));
        }
        let ghost sorted = isort(keeps(pre, index));
        let mut i: usize = 0;
        while i < kept.len()
            invariant
                kept@.len() == sorted.len(),
                i <= sorted.len(),
                forall|k: int| 0 <= k < i ==> (#[trigger] kept@[k])@ == (TaskView {
                    index: renumber_index(k),
                    ..sorted[k]
                }),
                forall|k: int| i <= k < sorted.len() ==> (#[trigger] kept@[k])@ == sorted[k],
            decreases kept.len() - i,
        {
            let ghost kv = kept@.map_values(|t: Task| t@);
            let t = kept.remove(i);
            let n64: u64 = ((i as u64) + 1) % 0x1_0000_0000;
            let renumbered = Task { index: n64 as u32, ..t };
            kept.insert(i, renumbered);
            proof {
                assert(kept@.map_values(|t: Task| t@) =~= kv.update(
                    i as int,
                    TaskView { index: renumber_index(i as int), ..kv[i as int] },
                ));
            }
            i = i + 1;
        }
        let n = kept.len();
        self.tasks = kept;
        proof {
            assert(self@ =~= renumber(sorted));
            assert forall|k: int|
                0 <= k < pre.len() && #[trigger] pre[k].index == index implies keeps(
                pre,
                index,
            ).len() < pre.len() by {
                lemma_keeps(pre, index);
            }
            if pre.len() <= u32::MAX {
                assert forall|k: int| 0 <= k < self@.len() implies #[trigger] self@[k].index == k
                    + 1 by {
                    assert(self@[k].index == renumber_index(k));
                }
            }
        }
        Ok(n)
    }

    /// Empties the collection. Always succeeds, also when already empty.
    pub fn clear(&mut self)
        ensures
            final(self)@ =~= Seq::<TaskView>::empty(),
    {
        self.tasks.clear();
    }
}

} // verus!

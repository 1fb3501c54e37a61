//! The task collection: an ordered, mutable sequence of tasks, keyed by a
//! caller-supplied integer id that is not required to be unique. Operations
//! keyed by id act on the first matching entry in list order.

use vstd::prelude::*;
use vstd::string::StringExecFns;
use crate::task::{Task, TaskView, toggled, summary_spec};
use crate::order::{lex_le, keep_key, sorted_by_key, str_le, str_eq};
use crate::order::{lemma_lex_le_refl, lemma_lex_le_total, lemma_lex_le_trans, lemma_lex_le_antisym};
use crate::order::{lemma_keep_key_singleton, lemma_keep_key_add, lemma_keep_key_none, lemma_keep_key_swap, lemma_stable_sorted_unique};
use crate::date::{ParsedDate, date_of, dl_le, pd_key, parse_deadline, key_le};

verus! {

/// The views of a sequence of tasks, in order.
pub open spec fn views_of(s: Seq<Task>) -> Seq<TaskView> {
    s.map_values(|t: Task| t@)
}

/// The views of a sequence of borrowed tasks, in order.
pub open spec fn ref_views_of(s: Seq<&Task>) -> Seq<TaskView> {
    s.map_values(|t: &Task| t@)
}

/// The sort key of `sort_by_title`: the task's title.
pub open spec fn title_key() -> spec_fn(TaskView) -> Seq<char> {
    |t: TaskView| t.title
}

/// The order on title keys: lexicographic by code point.
pub open spec fn lex_le_fn() -> spec_fn(Seq<char>, Seq<char>) -> bool {
    |x: Seq<char>, y: Seq<char>| lex_le(x, y)
}

/// The sort key of `sort_by_deadline`: the parsed deadline, or `None` for a
/// task without one.
pub open spec fn dl_key(t: TaskView) -> Option<(int, int, int)> {
    match t.deadline {
        Some(d) => date_of(d),
        None => None,
    }
}

pub open spec fn deadline_key() -> spec_fn(TaskView) -> Option<(int, int, int)> {
    |t: TaskView| dl_key(t)
}

pub open spec fn dl_le_fn() -> spec_fn(Option<(int, int, int)>, Option<(int, int, int)>) -> bool {
    |x: Option<(int, int, int)>, y: Option<(int, int, int)>| dl_le(x, y)
}

/// A task whose deadline, if any, is a well-formed `YYYY-MM-DD` date.
pub open spec fn deadline_ok(t: TaskView) -> bool {
    match t.deadline {
        Some(d) => date_of(d) is Some,
        None => true,
    }
}

/// The in-memory, ordered task collection.
pub struct TasksList {
    pub tasks: Vec<Task>,
}

impl View for TasksList {
    type V = Seq<TaskView>;

    open spec fn view(&self) -> Seq<TaskView> {
        views_of(self.tasks@)
    }
}

impl TasksList {
    /// An empty collection.
    pub fn new() -> (r: TasksList)
        ensures
            r@ == Seq::<TaskView>::empty(),
    {
        let r = TasksList { tasks: Vec::new() };
        proof {
            assert(r@ =~= Seq::<TaskView>::empty());
        }
        r
    }

    /// Append a task at the end; duplicate ids are permitted by design.
    pub fn add_task(&mut self, task: Task)
        ensures
            final(self)@ == old(self)@.push(task@),
    {
        self.tasks.push(task);
        proof {
            assert(self@ =~= old(self)@.push(task@));
        }
    }

    /// Remove the first task whose id equals `id`; do nothing if none matches.
    pub fn remove_task(&mut self, id: u32)
        ensures
            (forall|i: int| 0 <= i < old(self)@.len() ==> (#[trigger] old(self)@[i]).id != id)
                ==> final(self)@ == old(self)@,
            forall|i: int|
                0 <= i < old(self)@.len() && (#[trigger] old(self)@[i]).id == id
                    && (forall|j: int| 0 <= j < i ==> (#[trigger] old(self)@[j]).id != id)
                    ==> final(self)@ == old(self)@.remove(i),
    {
        let n = self.tasks.len();
        let mut i: usize = 0;
        while i < n
            invariant
                i <= n,
                n == self.tasks@.len(),
                self@ == old(self)@,
                self.tasks@ == old(self).tasks@,
                forall|j: int| 0 <= j < i ==> (#[trigger] self@[j]).id != id,
            decreases n - i,
        {
            if self.tasks[i].get_id() == id {
                proof {
                    assert((#[trigger] old(self)@[i as int]).id == id);
                }
                self.tasks.remove(i);
                proof {
                    assert(self@ =~= old(self)@.remove(i as int));
                    assert(old(self)@[i as int].id == id);
                    assert forall|i2: int|
                        0 <= i2 < old(self)@.len() && (#[trigger] old(self)@[i2]).id == id
                            && (forall|j: int| 0 <= j < i2 ==> (#[trigger] old(self)@[j]).id != id)
                            implies final(self)@ == old(self)@.remove(i2) by {
                        assert(i2 == i as int);
                    }
                }
                return;
            }
            i = i + 1;
        }
    }

    /// The first task whose id equals `id`, if any; read-only.
    pub fn find_task_by_id(&self, id: u32) -> (r: Option<&Task>)
        ensures
            match r {
                Some(t) => exists|i: int|
                    0 <= i < self@.len() && (#[trigger] self@[i]).id == id && t@ == self@[i]
                        && (forall|j: int| 0 <= j < i ==> (#[trigger] self@[j]).id != id),
                None => forall|i: int| 0 <= i < self@.len() ==> (#[trigger] self@[i]).id != id,
            },
    {
        let n = self.tasks.len();
        let mut i: usize = 0;
        while i < n
            invariant
                i <= n,
                n == self.tasks@.len(),
                forall|j: int| 0 <= j < i ==> (#[trigger] self@[j]).id != id,
            decreases n - i,
        {
            if self.tasks[i].get_id() == id {
                let t = &self.tasks[i];
                proof {
                    assert(t@ == self@[i as int]);
                    assert((#[trigger] self@[i as int]).id == id);
                }
                return Some(t);
            }
            i = i + 1;
        }
        None
    }

    /// Every task whose title equals `title` exactly (case-sensitive), in
    /// collection order; empty if none matches.
    pub fn find_task_by_title(&self, title: &str) -> (r: Vec<&Task>)
        ensures
            ref_views_of(r@) == keep_key(self@, title_key(), title@),
    {
        let n = self.tasks.len();
        let mut r: Vec<&Task> = Vec::new();
        let mut i: usize = 0;
        proof {
            assert(self@.take(0) =~= Seq::<TaskView>::empty());
            assert(ref_views_of(Seq::<&Task>::empty()) =~= Seq::<TaskView>::empty());
            assert(keep_key(self@.take(0), title_key(), title@) == Seq::<TaskView>::empty());
        }
        while i < n
            invariant
                i <= n,
                n == self.tasks@.len(),
                ref_views_of(r@) == keep_key(self@.take(i as int), title_key(), title@),
            decreases n - i,
        {
            let ghost pre = r@;
            if str_eq(self.tasks[i].get_title(), title) {
                r.push(&self.tasks[i]);
            }
            proof {
                assert(self@.take(i + 1) =~= self@.take(i as int) + seq![self@[i as int]]);
                lemma_keep_key_add(self@.take(i as int), seq![self@[i as int]], title_key(), title@);
                lemma_keep_key_singleton(self@[i as int], title_key(), title@);
                if self@[i as int].title == title@ {
                    assert(ref_views_of(r@) =~= ref_views_of(pre) + seq![self@[i as int]]);
                } else {
                    assert(keep_key(self@.take(i as int), title_key(), title@) + Seq::<TaskView>::empty()
                        =~= keep_key(self@.take(i as int), title_key(), title@));
                }
            }
            i = i + 1;
        }
        proof {
            assert(self@.take(n as int) =~= self@);
        }
        r
    }

    /// Flip the completion flag of the first task whose id equals `id`;
    /// report whether one was found.
    pub fn toggle_task_by_id(&mut self, id: u32) -> (found: bool)
        ensures
            (forall|i: int| 0 <= i < old(self)@.len() ==> (#[trigger] old(self)@[i]).id != id)
                ==> final(self)@ == old(self)@ && !found,
            forall|i: int|
                0 <= i < old(self)@.len() && (#[trigger] old(self)@[i]).id == id
                    && (forall|j: int| 0 <= j < i ==> (#[trigger] old(self)@[j]).id != id)
                    ==> found && final(self)@ == old(self)@.update(i, toggled(old(self)@[i])),
    {
        let n = self.tasks.len();
        let mut i: usize = 0;
        while i < n
            invariant
                i <= n,
                n == self.tasks@.len(),
                self@ == old(self)@,
                self.tasks@ == old(self).tasks@,
                forall|j: int| 0 <= j < i ==> (#[trigger] self@[j]).id != id,
            decreases n - i,
        {
            if self.tasks[i].get_id() == id {
                let mut t = self.tasks.remove(i);
                t.toggle_completed();
                self.tasks.insert(i, t);
                proof {
                    assert(self@ =~= old(self)@.update(i as int, toggled(old(self)@[i as int])));
                    assert forall|i2: int|
                        0 <= i2 < old(self)@.len() && (#[trigger] old(self)@[i2]).id == id
                            && (forall|j: int| 0 <= j < i2 ==> (#[trigger] old(self)@[j]).id != id)
                            implies final(self)@ == old(self)@.update(i2, toggled(old(self)@[i2])) by {
                        assert(i2 == i as int);
                    }
                }
                return true;
            }
            i = i + 1;
        }
        false
    }
    /// Stable sort by title, lexicographic by code point: afterwards titles
    /// ascend, and for every title the subsequence of tasks carrying it is
    /// exactly what it was before (stability). Together with sortedness this
    /// pins the result down completely (`lemma_stable_sorted_unique`).
    pub fn sort_by_title(&mut self)
        ensures
            final(self)@.len() == old(self)@.len(),
            sorted_by_key(final(self)@, title_key(), lex_le_fn()),
            forall|t: Seq<char>| #[trigger] keep_key(final(self)@, title_key(), t)
                == keep_key(old(self)@, title_key(), t),
    {
        let n = self.tasks.len();
        let mut i: usize = 1;
        while i < n
            invariant
                n == self.tasks@.len(),
                1 <= i <= n || n == 0,
                forall|p: int, q: int|
                    0 <= p < q < i ==> lex_le((#[trigger] self@[p]).title, (#[trigger] self@[q]).title),
                forall|t: Seq<char>| #[trigger] keep_key(self@, title_key(), t)
                    == keep_key(old(self)@, title_key(), t),
            decreases n - i,
        {
            let mut j: usize = i;
            while j > 0 && !str_le(self.tasks[j - 1].get_title(), self.tasks[j].get_title())
                invariant
                    j <= i,
                    i < n,
                    n == self.tasks@.len(),
                    forall|p: int, q: int|
                        0 <= p < q <= i && q != j
                            ==> lex_le((#[trigger] self@[p]).title, (#[trigger] self@[q]).title),
                    forall|t: Seq<char>| #[trigger] keep_key(self@, title_key(), t)
                        == keep_key(old(self)@, title_key(), t),
                decreases j,
            {
                let ghost pre = self@;
                proof {
                    lemma_lex_le_refl(pre[j - 1].title);
                    lemma_lex_le_total(pre[j - 1].title, pre[j as int].title);
                    assert(pre[j - 1].title != pre[j as int].title);
                    lemma_keep_key_swap(pre, j - 1, title_key());
                }
                swap_adjacent(&mut self.tasks, j - 1);
                proof {
                    assert(self@ =~= pre.update(j - 1, pre[j as int]).update(j as int, pre[j - 1]));
                    assert forall|t: Seq<char>| #[trigger] keep_key(self@, title_key(), t)
                        == keep_key(old(self)@, title_key(), t) by {
                        assert(keep_key(self@, title_key(), t) == keep_key(pre, title_key(), t));
                    }
                    assert forall|p: int, q: int|
                        0 <= p < q <= i && q != j - 1
                            implies lex_le((#[trigger] self@[p]).title, (#[trigger] self@[q]).title) by {
                        if q == j && p == j - 1 {
                            assert(self@[p].title == pre[j as int].title);
                            assert(self@[q].title == pre[j - 1].title);
                        } else if q == j {
                            assert(self@[q].title == pre[j - 1].title);
                            assert(lex_le(pre[p].title, pre[j - 1].title));
                        } else if p == j - 1 {
                            assert(self@[p].title == pre[j as int].title);
                            assert(lex_le(pre[j as int].title, pre[q].title));
                        } else if p == j {
                            assert(self@[p].title == pre[j - 1].title);
                            assert(lex_le(pre[j - 1].title, pre[q].title));
                        } else {
                            assert(lex_le(pre[p].title, pre[q].title));
                        }
                    }
                }
                j = j - 1;
            }
            proof {
                assert forall|p: int, q: int|
                    0 <= p < q < i + 1
                        implies lex_le((#[trigger] self@[p]).title, (#[trigger] self@[q]).title) by {
                    if q == j && j > 0 {
                        assert(lex_le(self@[j - 1].title, self@[j as int].title));
                        if p < j - 1 {
                            assert(lex_le(self@[p].title, self@[j - 1].title));
                            lemma_lex_le_trans(self@[p].title, self@[j - 1].title, self@[j as int].title);
                        }
                    }
                }
            }
            i = i + 1;
        }
        proof {
            if n == 0 {
                assert(self@.len() == 0);
            }
            assert(sorted_by_key(self@, title_key(), lex_le_fn()));
        }
    }
    /// Stable sort by deadline, ascending: dated tasks first in chronological
    /// order of their parsed `YYYY-MM-DD` dates, undated tasks last, ties kept
    /// in their original order. If any present deadline is not a well-formed
    /// date the collection is left untouched and the id of the first such task
    /// is returned, rather than failing fatally.
    pub fn sort_by_deadline(&mut self) -> (r: Result<(), u32>)
        ensures
            match r {
                Ok(_) => {
                    &&& forall|i: int|
                        0 <= i < old(self)@.len() ==> deadline_ok(#[trigger] old(self)@[i])
                    &&& final(self)@.len() == old(self)@.len()
                    &&& sorted_by_key(final(self)@, deadline_key(), dl_le_fn())
                    &&& forall|k: Option<(int, int, int)>|
                        #[trigger] keep_key(final(self)@, deadline_key(), k)
                            == keep_key(old(self)@, deadline_key(), k)
                },
                Err(id) => {
                    &&& final(self)@ == old(self)@
                    &&& exists|i: int|
                        0 <= i < old(self)@.len() && !deadline_ok(#[trigger] old(self)@[i])
                            && old(self)@[i].id == id
                            && (forall|j: int| 0 <= j < i ==> deadline_ok(#[trigger] old(self)@[j]))
                },
            },
    {
        let n = self.tasks.len();
        let mut keys: Vec<Option<ParsedDate>> = Vec::new();
        let mut idx: usize = 0;
        while idx < n
            invariant
                idx <= n,
                n == self.tasks@.len(),
                self@ == old(self)@,
                self.tasks@ == old(self).tasks@,
                keys@.len() == idx,
                forall|j: int|
                    0 <= j < idx ==> pd_key(#[trigger] keys@[j]) == dl_key(self@[j])
                        && deadline_ok(self@[j]),
            decreases n - idx,
        {
            let key_opt: Option<ParsedDate> = match self.tasks[idx].get_deadline() {
                None => None,
                Some(d) => match parse_deadline(d) {
                    Some(p) => Some(p),
                    None => {
                        proof {
                            assert(!deadline_ok(#[trigger] old(self)@[idx as int]));
                            assert forall|j: int| 0 <= j < idx
                                implies deadline_ok(#[trigger] old(self)@[j]) by {
                                assert(pd_key(keys@[j]) == dl_key(self@[j]));
                            }
                        }
                        return Err(self.tasks[idx].get_id());
                    },
                },
            };
            keys.push(key_opt);
            idx = idx + 1;
        }
        proof {
            assert forall|j: int| 0 <= j < n implies deadline_ok(#[trigger] old(self)@[j]) by {
                assert(pd_key(keys@[j]) == dl_key(self@[j]));
            }
        }
        let ghost vs0 = self@;
        let mut i: usize = 1;
        while i < n
            invariant
                n == self.tasks@.len(),
                keys@.len() == n,
                1 <= i <= n || n == 0,
                forall|p: int| 0 <= p < n ==> pd_key(#[trigger] keys@[p]) == dl_key(self@[p]),
                forall|p: int, q: int|
                    0 <= p < q < i
                        ==> dl_le(dl_key(#[trigger] self@[p]), dl_key(#[trigger] self@[q])),
                forall|k: Option<(int, int, int)>|
                    #[trigger] keep_key(self@, deadline_key(), k) == keep_key(vs0, deadline_key(), k),
            decreases n - i,
        {
            let mut j: usize = i;
            while j > 0 && !key_le(&keys[j - 1], &keys[j])
                invariant
                    j <= i,
                    i < n,
                    n == self.tasks@.len(),
                    keys@.len() == n,
                    forall|p: int| 0 <= p < n ==> pd_key(#[trigger] keys@[p]) == dl_key(self@[p]),
                    forall|p: int, q: int|
                        0 <= p < q <= i && q != j
                            ==> dl_le(dl_key(#[trigger] self@[p]), dl_key(#[trigger] self@[q])),
                    forall|k: Option<(int, int, int)>|
                        #[trigger] keep_key(self@, deadline_key(), k)
                            == keep_key(vs0, deadline_key(), k),
                decreases j,
            {
                let ghost pre = self@;
                proof {
                    assert(!dl_le(dl_key(pre[j - 1]), dl_key(pre[j as int])));
                    assert(dl_le(dl_key(pre[j as int]), dl_key(pre[j as int])));
                    assert(dl_key(pre[j - 1]) != dl_key(pre[j as int]));
                    lemma_keep_key_swap(pre, j - 1, deadline_key());
                }
                swap_adjacent(&mut self.tasks, j - 1);
                swap_adjacent(&mut keys, j - 1);
                proof {
                    assert(self@ =~= pre.update(j - 1, pre[j as int]).update(j as int, pre[j - 1]));
                    assert forall|k: Option<(int, int, int)>|
                        #[trigger] keep_key(self@, deadline_key(), k)
                            == keep_key(vs0, deadline_key(), k) by {
                        assert(keep_key(self@, deadline_key(), k) == keep_key(pre, deadline_key(), k));
                    }
                    assert forall|p: int| 0 <= p < n
                        implies pd_key(#[trigger] keys@[p]) == dl_key(self@[p]) by {
                    }
                    assert forall|p: int, q: int|
                        0 <= p < q <= i && q != j - 1
                            implies dl_le(dl_key(#[trigger] self@[p]), dl_key(#[trigger] self@[q])) by {
                        if q == j && p == j - 1 {
                            assert(self@[p] == pre[j as int]);
                            assert(self@[q] == pre[j - 1]);
                        } else if q == j {
                            assert(self@[q] == pre[j - 1]);
                            assert(dl_le(dl_key(pre[p]), dl_key(pre[j - 1])));
                        } else if p == j - 1 {
                            assert(self@[p] == pre[j as int]);
                            assert(dl_le(dl_key(pre[j as int]), dl_key(pre[q])));
                        } else if p == j {
                            assert(self@[p] == pre[j - 1]);
                            assert(dl_le(dl_key(pre[j - 1]), dl_key(pre[q])));
                        } else {
                            assert(dl_le(dl_key(pre[p]), dl_key(pre[q])));
                        }
                    }
                }
                j = j - 1;
            }
            proof {
                assert forall|p: int, q: int|
                    0 <= p < q < i + 1
                        implies dl_le(dl_key(#[trigger] self@[p]), dl_key(#[trigger] self@[q])) by {
                    if q == j && j > 0 {
                        assert(dl_le(dl_key(self@[j - 1]), dl_key(self@[j as int])));
                        if p < j - 1 {
                            assert(dl_le(dl_key(self@[p]), dl_key(self@[j - 1])));
                        }
                    }
                }
            }
            i = i + 1;
        }
        proof {
            if n == 0 {
                assert(self@.len() == 0);
            }
            assert(sorted_by_key(self@, deadline_key(), dl_le_fn()));
        }
        Ok(())
    }

    /// The listing of every task, in current collection order: each task's
    /// summary followed by a divider line.
    pub fn summary_all(&self) -> (r: String)
        ensures
            r@ == summaries_spec(self@),
    {
        let n = self.tasks.len();
        let mut s = String::new();
        let mut i: usize = 0;
        proof {
            assert(self@.take(0) =~= Seq::<TaskView>::empty());
        }
        while i < n
            invariant
                i <= n,
                n == self.tasks@.len(),
                s@ == summaries_spec(self@.take(i as int)),
            decreases n - i,
        {
            let line = self.tasks[i].summary();
            s.append(line.as_str());
            s.append("\n---------------------------------------------------------------------------\n");
            proof {
                assert(self@.take(i + 1).drop_last() =~= self@.take(i as int));
                assert(self@.take(i + 1).last() == self@[i as int]);
                assert(s@ =~= summaries_spec(self@.take(i + 1)));
            }
            i = i + 1;
        }
        proof {
            assert(self@.take(n as int) =~= self@);
        }
        s
    }
}

/// The text of the whole collection's listing: each task's summary in
/// collection order, each followed by a divider line.
pub open spec fn summaries_spec(s: Seq<TaskView>) -> Seq<char>
    decreases s.len(),
{
    if s.len() == 0 {
        Seq::<char>::empty()
    } else {
        summaries_spec(s.drop_last()) + summary_spec(s.last())
            + "\n---------------------------------------------------------------------------\n"@
    }
}

/// `sort_by_title` is idempotent and deterministic: sortedness by title plus
/// preserved per-title subsequences — exactly its contract — determine the
/// result uniquely. A collection that is already sorted, in particular one
/// just sorted, is therefore left exactly as it is by sorting again.
pub proof fn lemma_sort_by_title_idempotent(a: Seq<TaskView>, b: Seq<TaskView>)
    requires
        sorted_by_key(a, title_key(), lex_le_fn()),
        sorted_by_key(b, title_key(), lex_le_fn()),
        forall|t: Seq<char>| #[trigger] keep_key(a, title_key(), t) == keep_key(b, title_key(), t),
    ensures
        a == b,
{
    let kle = lex_le_fn();
    assert forall|k1: Seq<char>, k2: Seq<char>| #[trigger] kle(k1, k2) || kle(k2, k1) by {
        lemma_lex_le_total(k1, k2);
    }
    assert forall|k1: Seq<char>, k2: Seq<char>| #[trigger] kle(k1, k2) && kle(k2, k1) implies k1 == k2 by {
        lemma_lex_le_antisym(k1, k2);
    }
    lemma_stable_sorted_unique(a, b, title_key(), lex_le_fn());
}

/// The same uniqueness holds of `sort_by_deadline`: its contract pins the
/// result down, so a second sort changes nothing.
pub proof fn lemma_sort_by_deadline_idempotent(a: Seq<TaskView>, b: Seq<TaskView>)
    requires
        sorted_by_key(a, deadline_key(), dl_le_fn()),
        sorted_by_key(b, deadline_key(), dl_le_fn()),
        forall|k: Option<(int, int, int)>| #[trigger] keep_key(a, deadline_key(), k)
            == keep_key(b, deadline_key(), k),
    ensures
        a == b,
{
    lemma_stable_sorted_unique(a, b, deadline_key(), dl_le_fn());
}

/// Looking up a title that no task carries — in particular in an empty
/// collection — yields the empty result.
pub proof fn lemma_find_by_title_no_match(s: Seq<TaskView>, t: Seq<char>)
    requires
        forall|i: int| 0 <= i < s.len() ==> (#[trigger] s[i]).title != t,
    ensures
        keep_key(s, title_key(), t) == Seq::<TaskView>::empty(),
{
    lemma_keep_key_none(s, title_key(), t);
}

/// Adding a task and then looking its id up by `find_task_by_id` finds a task
/// with identical field values, provided no task already in the collection
/// carries that id; with a duplicate id the lookup returns the earlier entry.
pub proof fn lemma_add_then_find(s: Seq<TaskView>, t: TaskView)
    requires
        forall|i: int| 0 <= i < s.len() ==> (#[trigger] s[i]).id != t.id,
    ensures
        exists|i: int|
            0 <= i < s.push(t).len() && (#[trigger] s.push(t)[i]).id == t.id
                && s.push(t)[i] == t
                && (forall|j: int| 0 <= j < i ==> (#[trigger] s.push(t)[j]).id != t.id),
        forall|i: int|
            0 <= i < s.push(t).len() && (#[trigger] s.push(t)[i]).id == t.id
                && (forall|j: int| 0 <= j < i ==> (#[trigger] s.push(t)[j]).id != t.id)
                ==> s.push(t)[i] == t,
{
    let s2 = s.push(t);
    assert(s2[s.len() as int] == t);
    assert forall|j: int| 0 <= j < s.len() implies (#[trigger] s2[j]).id != t.id by {
        assert(s2[j] == s[j]);
    }
    assert(0 <= s.len() < s2.len() && (#[trigger] s2[s.len() as int]).id == t.id
        && s2[s.len() as int] == t
        && (forall|j: int| 0 <= j < s.len() ==> (#[trigger] s2[j]).id != t.id));
    assert forall|i: int|
        0 <= i < s2.len() && (#[trigger] s2[i]).id == t.id
            && (forall|j: int| 0 <= j < i ==> (#[trigger] s2[j]).id != t.id)
            implies s2[i] == t by {
        if i < s.len() {
            assert(s2[i] == s[i]);
        }
    }
}

/// Swap the adjacent elements at `i` and `i + 1`.
fn swap_adjacent<T>(v: &mut Vec<T>, i: usize)
    requires
        i + 1 < old(v)@.len(),
    ensures
        final(v)@ == old(v)@.update(i as int, old(v)@[i + 1]).update(i + 1, old(v)@[i as int]),
{
    let n = v.len();
    proof {
        assert(i + 1 < n);
    }
    let x = v.remove(i);
    v.insert(i + 1, x);
    proof {
        assert(v@ =~= old(v)@.update(i as int, old(v)@[i + 1]).update(i + 1, old(v)@[i as int]));
    }
}

} // verus!

use vstd::prelude::*;
use crate::process_table::{
    process_switch_to, set_next_process, CpuState, ProcessTable, ProcessTableView, ProcessView,
    SwitchAction, SAVED_CONTEXT_BYTES,
};

verus! {

/// Whether the processes of `queue` are distinct processes of the table
/// that are linked in the order of the queue, the last one to none.
pub open spec fn linked(queue: Seq<usize>, table: ProcessTableView) -> bool {
    &&& queue.no_duplicates()
    &&& forall|i: int| 0 <= i < queue.len() ==> table.valid(#[trigger] queue[i])
    &&& forall|i: int|
        0 <= i < queue.len() ==> table.processes[(#[trigger] queue[i]) as int].next == if i + 1
            < queue.len() {
            Some(queue[i + 1])
        } else {
            None
        }
}

/// The table after the process `process` was put behind the processes of
/// `queue`: its link is cleared, and the last process of the queue, if
/// there is one, is linked to it.
pub open spec fn enqueue(table: ProcessTableView, queue: Seq<usize>, process: usize)
    -> ProcessTableView {
    let cleared = table.with_process(
        process,
        ProcessView { next: None, ..table.processes[process as int] },
    );
    if queue.len() == 0 {
        cleared
    } else {
        cleared.with_process(
            queue.last(),
            ProcessView { next: Some(process), ..cleared.processes[queue.last() as int] },
        )
    }
}

/// The table after the first process of `queue` was taken off the queue:
/// its link is cleared.
pub open spec fn dequeue(table: ProcessTableView, queue: Seq<usize>) -> ProcessTableView {
    table.with_process(
        queue[0],
        ProcessView { next: None, ..table.processes[queue[0] as int] },
    )
}

/// Whether every process of the table that is not in `queue` has no link: a
/// link is set only while a process is queued.
pub open spec fn unlinked_outside(queue: Seq<usize>, table: ProcessTableView) -> bool {
    forall|h: usize|
        table.valid(h) && !(#[trigger] queue.contains(h)) ==> table.processes[h as int].next
            is None
}

/// The ready queue with the process that runs, if one does, put behind the
/// processes that were left when the first one was taken.
pub open spec fn rotate(queue: Seq<usize>, current: Option<usize>) -> Seq<usize> {
    match current {
        Some(c) => queue.skip(1).push(c),
        None => queue.skip(1),
    }
}

/// The table after a process gave up the processor in the state `cpu`
/// while the processes of `queue`, at least one, were ready: the first of
/// the queue is taken off and runs, and the process that ran is put behind
/// the others.
pub open spec fn yield_to_first(table: ProcessTableView, queue: Seq<usize>, cpu: CpuState)
    -> ProcessTableView {
    let taken = dequeue(table, queue);
    let requeued = match table.current {
        Some(c) => enqueue(taken, queue.skip(1), c),
        None => taken,
    };
    (ProcessTableView { next: Some(queue[0]), ..requeued }).switch(cpu)
}

/// What the processor is loaded with when a process gives it up in the
/// state `cpu` while the processes of `queue`, at least one, are ready: the
/// stack pointer, the page table and the saved context of the first of
/// them.
pub open spec fn switch_of_yield(table: ProcessTableView, queue: Seq<usize>, cpu: CpuState)
    -> SwitchAction {
    let taken = dequeue(table, queue);
    let requeued = match table.current {
        Some(c) => enqueue(taken, queue.skip(1), c),
        None => taken,
    };
    (ProcessTableView { next: Some(queue[0]), ..requeued }).switch_action(cpu)
}

/// Putting a process that is not queued behind a linked queue of a valid
/// table gives a valid table and a linked queue.
pub proof fn lemma_enqueue(table: ProcessTableView, queue: Seq<usize>, process: usize)
    requires
        table.wf(),
        linked(queue, table),
        table.valid(process),
        !queue.contains(process),
    ensures
        enqueue(table, queue, process).wf(),
        linked(queue.push(process), enqueue(table, queue, process)),
{
    let cleared = table.with_process(
        process,
        ProcessView { next: None, ..table.processes[process as int] },
    );
    let after = enqueue(table, queue, process);
    let longer = queue.push(process);
    assert forall|i: int, j: int| 0 <= i < j < after.processes.len() implies (
    #[trigger] after.processes[i]).process_id < (#[trigger] after.processes[j]).process_id by {
        assert(table.processes[i].process_id < table.processes[j].process_id);
    }
    assert forall|i: int| 0 <= i < after.processes.len() implies ((
    #[trigger] after.processes[i]).next matches Some(j) ==> after.valid(j)) by {
        assert(table.processes[i].next matches Some(j) ==> table.valid(j));
    }
    assert forall|i: int| 0 <= i < after.processes.len() implies 0 < (
    #[trigger] after.processes[i]).process_id <= after.next_process_id by {
        assert(0 < table.processes[i].process_id <= table.next_process_id);
    }
    assert(longer.no_duplicates()) by {
        assert forall|i: int, j: int|
            0 <= i < longer.len() && 0 <= j < longer.len() && i != j implies longer[i]
            != longer[j] by {
            if i < queue.len() && j < queue.len() {
                assert(queue[i] != queue[j]);
            } else if i < queue.len() {
                assert(queue.contains(queue[i]));
            } else {
                assert(queue.contains(queue[j]));
            }
        }
    }
    assert forall|i: int| 0 <= i < longer.len() implies after.processes[(
    #[trigger] longer[i]) as int].next == if i + 1 < longer.len() {
        Some(longer[i + 1])
    } else {
        None
    } by {
        if i < queue.len() {
            assert(queue.contains(queue[i]));
            assert(table.valid(queue[i]));
            if i + 1 < queue.len() {
                assert(queue[i] != queue.last());
            }
        }
    }
    assert forall|i: int| 0 <= i < longer.len() implies after.valid(#[trigger] longer[i]) by {
        if i < queue.len() {
            assert(table.valid(queue[i]));
        }
    }
}

/// Taking the first process off a linked queue of a valid table and
/// clearing its link leaves a valid table and a linked queue; and where no
/// process outside the queue had a link, none has one after.
pub proof fn lemma_dequeue_unlinks(table: ProcessTableView, queue: Seq<usize>)
    requires
        table.wf(),
        linked(queue, table),
        queue.len() > 0,
    ensures
        dequeue(table, queue).wf(),
        linked(queue.skip(1), dequeue(table, queue)),
        !queue.skip(1).contains(queue[0]),
        dequeue(table, queue).processes[queue[0] as int].next is None,
        unlinked_outside(queue, table) ==> unlinked_outside(queue.skip(1), dequeue(table, queue)),
{
    lemma_dequeue(table, queue);
    let first = queue[0];
    let rest = queue.skip(1);
    let after = dequeue(table, queue);
    assert(table.valid(first));
    table.lemma_with_process(
        first,
        ProcessView { next: None, ..table.processes[first as int] },
    );
    assert forall|i: int| 0 <= i < rest.len() implies after.processes[(
    #[trigger] rest[i]) as int].next == table.processes[rest[i] as int].next by {
        assert(rest.contains(rest[i]));
        assert(table.valid(rest[i]));
    }
    lemma_linked_frame(rest, table, after);
    if unlinked_outside(queue, table) {
        assert forall|h: usize| after.valid(h) && !(#[trigger] rest.contains(h)) implies after.processes[h as int].next
            is None by {
            if h != first {
                if queue.contains(h) {
                    let j = choose|j: int| 0 <= j < queue.len() && queue[j] == h;
                    assert(rest[j - 1] == h);
                }
                assert(!queue.contains(h));
            }
        }
    }
}

/// Putting a process behind a queue leaves no process outside the longer
/// queue with a link, where none outside the queue had one.
pub proof fn lemma_enqueue_unlinked(table: ProcessTableView, queue: Seq<usize>, process: usize)
    requires
        table.wf(),
        linked(queue, table),
        table.valid(process),
        unlinked_outside(queue, table),
    ensures
        unlinked_outside(queue.push(process), enqueue(table, queue, process)),
{
    let after = enqueue(table, queue, process);
    let longer = queue.push(process);
    assert forall|h: usize| after.valid(h) && !(#[trigger] longer.contains(h)) implies after.processes[h as int].next
        is None by {
        assert(longer[longer.len() - 1] == process);
        assert(h != process);
        if queue.len() > 0 {
            assert(longer[queue.len() - 1] == queue.last());
            assert(h != queue.last());
        }
        if queue.contains(h) {
            let j = choose|j: int| 0 <= j < queue.len() && queue[j] == h;
            assert(longer[j] == h);
        }
        assert(!queue.contains(h));
    }
}

/// A table in which no process outside the queue has a link stays so when
/// a process without a link is added to it.
pub proof fn lemma_new_process_unlinked(
    table: ProcessTableView,
    queue: Seq<usize>,
    process: ProcessView,
)
    requires
        unlinked_outside(queue, table),
        process.next is None,
    ensures
        unlinked_outside(
            queue,
            ProcessTableView { processes: table.processes.push(process), ..table },
        ),
{
    let after = ProcessTableView { processes: table.processes.push(process), ..table };
    assert forall|h: usize| after.valid(h) && !(#[trigger] queue.contains(h)) implies after.processes[h as int].next
        is None by {
        if h < table.processes.len() {
            assert(table.valid(h));
        }
    }
}

/// Taking the first process off a linked queue leaves a linked queue.
pub proof fn lemma_dequeue(table: ProcessTableView, queue: Seq<usize>)
    requires
        linked(queue, table),
        queue.len() > 0,
    ensures
        linked(queue.skip(1), table),
        !queue.skip(1).contains(queue[0]),
{
    let rest = queue.skip(1);
    assert forall|i: int, j: int|
        0 <= i < rest.len() && 0 <= j < rest.len() && i != j implies rest[i] != rest[j] by {
        assert(queue[i + 1] != queue[j + 1]);
    }
    assert forall|i: int| 0 <= i < rest.len() implies table.valid(#[trigger] rest[i]) by {
        assert(table.valid(queue[i + 1]));
    }
    assert forall|i: int| 0 <= i < rest.len() implies table.processes[(
    #[trigger] rest[i]) as int].next == if i + 1 < rest.len() {
        Some(rest[i + 1])
    } else {
        None
    } by {
        assert(table.processes[queue[i + 1] as int].next == if i + 2 < queue.len() {
            Some(queue[i + 2])
        } else {
            None
        });
    }
    if rest.contains(queue[0]) {
        let i = choose|i: int| 0 <= i < rest.len() && rest[i] == queue[0];
        assert(queue[i + 1] == queue[0]);
    }
}

/// A queue stays linked when the table changes in nothing but what the
/// processes outside the queue hold, or in what the queued processes hold
/// beside their links.
pub proof fn lemma_linked_frame(queue: Seq<usize>, before: ProcessTableView, after: ProcessTableView)
    requires
        linked(queue, before),
        after.processes.len() == before.processes.len(),
        forall|i: int|
            0 <= i < queue.len() ==> after.processes[(#[trigger] queue[i]) as int].next
                == before.processes[queue[i] as int].next,
    ensures
        linked(queue, after),
{
    assert forall|i: int| 0 <= i < queue.len() implies after.valid(#[trigger] queue[i]) by {
        assert(before.valid(queue[i]));
    }
}

/// The ready queue: the processes that wait for the processor, in the
/// order in which they get it. The queue is a list through the links of the
/// processes, from its head to its tail.
pub struct MyScheduler {
    head: Option<usize>,
    tail: Option<usize>,
    queue: Ghost<Seq<usize>>,
}

impl View for MyScheduler {
    type V = Seq<usize>;

    closed spec fn view(&self) -> Seq<usize> {
        self.queue@
    }
}

impl Default for MyScheduler {
    /// The empty ready queue.
    fn default() -> (scheduler: MyScheduler)
        ensures
            scheduler@ == Seq::<usize>::empty(),
            forall|table: ProcessTableView| scheduler.wf(table),
    {
        MyScheduler { head: None, tail: None, queue: Ghost(Seq::empty()) }
    }
}

impl MyScheduler {
    /// The queued processes are linked in their order in the table, and
    /// the head and the tail are the first and the last of them.
    pub closed spec fn wf(&self, table: ProcessTableView) -> bool {
        &&& linked(self@, table)
        &&& self.head == if self@.len() > 0 {
            Some(self@[0])
        } else {
            None
        }
        &&& self.tail == if self@.len() > 0 {
            Some(self@.last())
        } else {
            None
        }
    }

    /// The queued processes of a valid queue are linked in the table.
    pub proof fn lemma_wf(&self, table: ProcessTableView)
        requires
            self.wf(table),
        ensures
            linked(self@, table),
    {
    }

    /// A queue that is valid for a table is valid for every table in
    /// which the queued processes have the same links.
    pub proof fn lemma_wf_frame(&self, before: ProcessTableView, after: ProcessTableView)
        requires
            self.wf(before),
            after.processes.len() == before.processes.len(),
            forall|i: int|
                0 <= i < self@.len() ==> after.processes[(#[trigger] self@[i]) as int].next
                    == before.processes[self@[i] as int].next,
        ensures
            self.wf(after),
    {
        lemma_linked_frame(self@, before, after);
    }

    /// Empties the queue.
    fn reset(&mut self)
        ensures
            final(self)@ == Seq::<usize>::empty(),
            final(self).head is None,
            final(self).tail is None,
    {
        self.head = None;
        self.tail = None;
        self.queue = Ghost(Seq::empty());
    }

    /// Handle of the first process of the queue.
    fn get_head(&self) -> (head: Option<usize>)
        ensures
            head == self.head,
    {
        self.head
    }

    /// Handle of the last process of the queue.
    fn get_tail(&self) -> (tail: Option<usize>)
        ensures
            tail == self.tail,
    {
        self.tail
    }

    /// Whether the process `process` is in the queue.
    pub fn is_queued(&self, table: &ProcessTable, process: usize) -> (queued: bool)
        requires
            table.wf(),
            self.wf(table@),
        ensures
            queued == self@.contains(process),
    {
        proof {
            table.lemma_wf();
        }
        let mut at: Option<usize> = self.head;
        let ghost mut i: int = 0;
        loop
            invariant
                table.wf(),
                self.wf(table@),
                0 <= i <= self@.len(),
                at == if i < self@.len() {
                    Some(self@[i])
                } else {
                    None
                },
                forall|j: int| 0 <= j < i ==> self@[j] != process,
            decreases self@.len() - i,
        {
            match at {
                None => {
                    return false;
                },
                Some(handle) => {
                    if handle == process {
                        return true;
                    }
                    assert(table@.valid(self@[i]));
                    at = table.get(handle).get_next();
                    proof {
                        i = i + 1;
                    }
                },
            }
        }
    }

    /// Takes the first process off the queue, if there is one, and clears
    /// its link: a process that is not queued has none.
    pub fn pop(&mut self, table: &mut ProcessTable) -> (first: Option<usize>)
        requires
            old(table).wf(),
            old(self).wf(old(table)@),
        ensures
            final(table).wf(),
            final(self).wf(final(table)@),
            first == if old(self)@.len() > 0 {
                Some(old(self)@[0])
            } else {
                None
            },
            final(self)@ == if old(self)@.len() > 0 {
                old(self)@.skip(1)
            } else {
                old(self)@
            },
            final(table)@ == if old(self)@.len() > 0 {
                old(table)@.with_process(
                    old(self)@[0],
                    ProcessView { next: None, ..old(table)@.processes[old(self)@[0] as int] },
                )
            } else {
                old(table)@
            },
            first matches Some(process) ==> {
                &&& old(table)@.valid(process)
                &&& final(table)@.processes[process as int].next is None
            },
            unlinked_outside(old(self)@, old(table)@) ==> unlinked_outside(
                final(self)@,
                final(table)@,
            ),
    {
        match self.get_head() {
            None => None,
            Some(head) => {
                proof {
                    table.lemma_wf();
                    lemma_dequeue_unlinks(table@, self@);
                    assert(table@.valid(self@[0]));
                }
                let next_ref: Option<usize> = table.get(head).get_next();
                match next_ref {
                    Some(val) => {
                        self.head = Some(val);
                        self.queue = Ghost(self.queue@.skip(1));
                    },
                    None => {
                        self.reset();
                    },
                }
                table.set_link(head, None);
                proof {
                    assert(self@ =~= old(self)@.skip(1));
                }
                Some(head)
            },
        }
    }

    /// Puts the process `process` at the end of the queue: clears its
    /// link and links the last queued process, if there is one, to it.
    pub fn resume(&mut self, table: &mut ProcessTable, process: usize)
        requires
            old(table).wf(),
            old(self).wf(old(table)@),
            old(table)@.valid(process),
            !old(self)@.contains(process),
        ensures
            final(table).wf(),
            final(self).wf(final(table)@),
            final(self)@ == old(self)@.push(process),
            final(table)@ == enqueue(old(table)@, old(self)@, process),
            unlinked_outside(old(self)@, old(table)@) ==> unlinked_outside(
                final(self)@,
                final(table)@,
            ),
    {
        proof {
            table.lemma_wf();
            lemma_enqueue(table@, self@, process);
            if unlinked_outside(self@, table@) {
                lemma_enqueue_unlinked(table@, self@, process);
            }
        }
        table.set_link(process, None);
        match self.get_tail() {
            None => {
                self.head = Some(process);
                self.tail = Some(process);
            },
            Some(tail) => {
                assert(old(table)@.valid(old(self)@.last()));
                table.set_link(tail, Some(process));
                self.tail = Some(process);
            },
        }
        self.queue = Ghost(self.queue@.push(process));
    }

    /// Gives up the processor, in the state `cpu`, to the first process of
    /// the queue: the process that runs, if one does, is put at the end of
    /// the queue and leaves its context, and the first process of the queue
    /// becomes the one that runs. Returns what the processor is to be
    /// loaded with. With an empty queue nothing changes and `None` is
    /// returned: the process that runs goes on.
    pub fn _yield(&mut self, table: &mut ProcessTable, cpu: &CpuState) -> (action: Option<
        SwitchAction,
    >)
        requires
            old(table).wf(),
            old(self).wf(old(table)@),
            old(table)@.current matches Some(c) ==> !old(self)@.contains(c),
            old(table)@.current is Some && old(self)@.len() > 0 ==> cpu.rsp >= SAVED_CONTEXT_BYTES,
        ensures
            final(table).wf(),
            final(self).wf(final(table)@),
            old(self)@.len() == 0 ==> {
                &&& action is None
                &&& final(self)@ == old(self)@
                &&& final(table)@ == old(table)@
            },
            old(self)@.len() > 0 ==> {
                &&& final(self)@ == rotate(old(self)@, old(table)@.current)
                &&& final(table)@ == yield_to_first(old(table)@, old(self)@, *cpu)
                &&& final(table)@.current == Some(old(self)@[0])
                &&& action == Some(switch_of_yield(old(table)@, old(self)@, *cpu))
            },
            unlinked_outside(old(self)@, old(table)@) ==> unlinked_outside(
                final(self)@,
                final(table)@,
            ),
    {
        proof {
            table.lemma_wf();
            if self@.len() > 0 {
                lemma_dequeue(table@, self@);
            }
        }
        let yield_pt: usize = match self.pop(table) {
            Some(first) => first,
            None => {
                return None;
            },
        };
        assert(table@.valid(old(self)@[0]));
        match table.current() {
            Some(resume_pt) => {
                assert(!self@.contains(resume_pt)) by {
                    if self@.contains(resume_pt) {
                        let i = choose|i: int| 0 <= i < self@.len() && self@[i] == resume_pt;
                        assert(old(self)@[i + 1] == resume_pt);
                    }
                }
                self.resume(table, resume_pt);
            },
            None => {},
        }
        set_next_process(table, yield_pt);
        let ghost before = table@;
        let action = process_switch_to(table, cpu);
        proof {
            table.lemma_wf();
            assert forall|i: int| 0 <= i < before.processes.len() implies (
            #[trigger] table@.processes[i]).next == before.processes[i].next by {}
            self.lemma_wf_frame(before, table@);
        }
        action
    }

    /// Ends the process `_proc`. A process, once created, stays: nothing
    /// changes.
    pub fn terminate(&mut self, _proc: usize)
        ensures
            *final(self) == *old(self),
    {
    }
}

/// Gives up the processor to the first process of the ready queue; see
/// `MyScheduler::_yield`.
pub fn _yield(scheduler: &mut MyScheduler, table: &mut ProcessTable, cpu: &CpuState) -> (action:
    Option<SwitchAction>)
    requires
        old(table).wf(),
        old(scheduler).wf(old(table)@),
        old(table)@.current matches Some(c) ==> !old(scheduler)@.contains(c),
        old(table)@.current is Some && old(scheduler)@.len() > 0 ==> cpu.rsp >= SAVED_CONTEXT_BYTES,
    ensures
        final(table).wf(),
        final(scheduler).wf(final(table)@),
        old(scheduler)@.len() == 0 ==> {
            &&& action is None
            &&& final(scheduler)@ == old(scheduler)@
            &&& final(table)@ == old(table)@
        },
        old(scheduler)@.len() > 0 ==> {
            &&& final(scheduler)@ == rotate(old(scheduler)@, old(table)@.current)
            &&& final(table)@ == yield_to_first(old(table)@, old(scheduler)@, *cpu)
            &&& final(table)@.current == Some(old(scheduler)@[0])
            &&& action == Some(switch_of_yield(old(table)@, old(scheduler)@, *cpu))
        },
        unlinked_outside(old(scheduler)@, old(table)@) ==> unlinked_outside(
            final(scheduler)@,
            final(table)@,
        ),
{
    scheduler._yield(table, cpu)
}

/// Puts the process `process` at the end of the ready queue; see
/// `MyScheduler::resume`.
pub fn resume(scheduler: &mut MyScheduler, table: &mut ProcessTable, process: usize)
    requires
        old(table).wf(),
        old(scheduler).wf(old(table)@),
        old(table)@.valid(process),
        !old(scheduler)@.contains(process),
    ensures
        final(table).wf(),
        final(scheduler).wf(final(table)@),
        final(scheduler)@ == old(scheduler)@.push(process),
        final(table)@ == enqueue(old(table)@, old(scheduler)@, process),
        unlinked_outside(old(scheduler)@, old(table)@) ==> unlinked_outside(
            final(scheduler)@,
            final(table)@,
        ),
{
    scheduler.resume(table, process)
}

} // verus!

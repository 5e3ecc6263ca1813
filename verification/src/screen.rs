//! Actions of the to-do screen that involve both the task list and the
//! text input.
use vstd::prelude::*;
use crate::task_list::TaskList;
use crate::text_input::TextInput;
use crate::whitespace::trimmed;

verus! {

/// Submits the input: takes its content out (leaving it empty) and adds it
/// to the list as a task; returns the new task's id when one was added.
pub fn submit_input(list: &mut TaskList, input: &mut TextInput) -> (r: Option<u64>)
    requires
        old(list).wf(),
        trimmed(old(input).content@).len() > 0 ==> old(list).next_id_view() < u64::MAX,
    ensures
        final(list).wf(),
        final(input).content@ == Seq::<char>::empty(),
        final(input).selected_range.start == 0,
        final(input).selected_range.end == 0,
        !final(input).selection_reversed,
        final(input).marked_range is None,
        final(input).placeholder == old(input).placeholder,
        trimmed(old(input).content@).len() == 0 ==> {
            &&& r == None::<u64>
            &&& final(list)@ == old(list)@
            &&& final(list).next_id_view() == old(list).next_id_view()
        },
        trimmed(old(input).content@).len() > 0 ==> {
            &&& r == Some(old(list).next_id_view())
            &&& final(list).next_id_view() == old(list).next_id_view() + 1
            &&& final(list)@.len() == old(list)@.len() + 1
            &&& final(list)@.take(old(list)@.len() as int) == old(list)@
            &&& final(list)@.last().id == old(list).next_id_view()
            &&& final(list)@.last().title@ == trimmed(old(input).content@)
            &&& !final(list)@.last().completed
        },
{
    let title = input.take_content();
    list.add(title.as_str())
}

} // verus!

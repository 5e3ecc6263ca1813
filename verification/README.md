# todo_core

The logic of a small in-memory to-do application with a single-line text
input, verified with Verus.

- `src/task_list.rs`: tasks and the task list (add with trimming, toggle,
  remove, count of open tasks), its well-formedness (ids ascend and stay below
  the next id) and the laws that relate the operations.
- `src/text_input.rs`: the editing state of the text input (content,
  selection, marked range) with cursor moves, grapheme-wise deletion,
  replacement and composition, and UTF-8/UTF-16 offset conversions.
- `src/text_metrics.rs`: character widths, byte and UTF-16 offsets, character
  boundaries, and their link to vstd's UTF-8 encoding.
- `src/whitespace.rs`: Unicode white space and trimming.
- `src/graphemes.rs`: grapheme cluster starts from `unicode-segmentation`, and
  the search for the boundary before or after an offset.
- `src/screen.rs`: submitting the input as a new task.
- `app/main.rs`: the window, drawing and key handling on GPUI, which calls the
  library.

//! Scanning the text of files for items, and putting the results together.
use vstd::prelude::*;

use crate::extract::{next_occurrence, next_occurrence_exec, task_in, task_of};
use crate::item::{DisplayDetail, TodoItem, TodoView};
use crate::report::paths_contiguous;

verus! {

/// `x` without one carriage return at its end.
pub open spec fn strip_cr(x: Seq<char>) -> Seq<char> {
    if x.len() > 0 && x.last() == '\r' {
        x.drop_last()
    } else {
        x
    }
}

/// The lines of `t` that start at or after index `i`: split after each `\n`,
/// each without its `\n` or `\r\n`; no empty line after a final `\n`.
pub open spec fn lines_from(t: Seq<char>, i: int) -> Seq<Seq<char>>
    decreases t.len() - i,
{
    if i < 0 || i >= t.len() {
        seq![]
    } else {
        let e = next_occurrence(t, i, seq!['\n']);
        // `e` is never below `i`; saying so keeps the recursion visibly finite.
        if i <= e < t.len() {
            seq![strip_cr(t.subrange(i, e))] + lines_from(t, e + 1)
        } else {
            seq![t.subrange(i, t.len() as int)]
        }
    }
}

/// The lines of `t`.
pub open spec fn lines_of(t: Seq<char>) -> Seq<Seq<char>> {
    lines_from(t, 0)
}

/// The items found on the first `k` of `lines`, numbered from zero.
pub open spec fn items_upto(lines: Seq<Seq<char>>, k: int, path: Seq<char>, detail: DisplayDetail) -> Seq<
    TodoView,
>
    decreases k,
{
    if k <= 0 {
        seq![]
    } else {
        let before = items_upto(lines, k - 1, path, detail);
        match task_of(lines[k - 1]) {
            Some(task) => before.push(
                TodoView { path, task, line_number: (k - 1) as nat, display_detail: detail },
            ),
            None => before,
        }
    }
}

/// The items of the file at `path` whose text is `t`, in line order.
pub open spec fn file_items(t: Seq<char>, path: Seq<char>, detail: DisplayDetail) -> Seq<TodoView> {
    items_upto(lines_of(t), lines_of(t).len() as int, path, detail)
}

proof fn lemma_items_upto_prefix(
    a: Seq<Seq<char>>,
    b: Seq<Seq<char>>,
    k: int,
    path: Seq<char>,
    detail: DisplayDetail,
)
    requires
        0 <= k <= a.len(),
        k <= b.len(),
        forall|j: int| 0 <= j < k ==> a[j] == b[j],
    ensures
        items_upto(a, k, path, detail) == items_upto(b, k, path, detail),
    decreases k,
{
    if k > 0 {
        lemma_items_upto_prefix(a, b, k - 1, path, detail);
    }
}

/// The items of the file at `path` whose text is `file`, in line order,
/// each numbered by its zero-based line and showing `display_detail`.
pub fn todo_items_from_file(file: &str, path: &str, display_detail: DisplayDetail) -> (r: Vec<
    TodoItem,
>)
    ensures
        r@.map_values(|t: TodoItem| t@) == file_items(file@, path@, display_detail),
{
    let t = crate::text::chars_of(file);
    let n = t.len();
    let nl: &[char] = &['\n'];
    assert(nl@ =~= seq!['\n']);
    let mut items: Vec<TodoItem> = Vec::new();
    let mut i: usize = 0;
    let mut k: usize = 0;
    let ghost mut done: Seq<Seq<char>> = seq![];
    while i < n
        invariant
            n == t@.len(),
            t@ == file@,
            nl@ == seq!['\n'],
            k <= i <= n,
            done.len() == k,
            done + lines_from(t@, i as int) == lines_of(t@),
            items@.map_values(|x: TodoItem| x@) == items_upto(done, k as int, path@, display_detail),
        decreases n - i,
    {
        let e = next_occurrence_exec(t.as_slice(), i, nl);
        let line_end = if e < n && e > i && t[e - 1] == '\r' {
            e - 1
        } else {
            e
        };
        let line = vstd::slice::slice_subrange(t.as_slice(), i, line_end);
        let ghost this_line = line@;
        proof {
            if e < n {
                assert(this_line =~= strip_cr(t@.subrange(i as int, e as int)));
            } else {
                assert(this_line =~= t@.subrange(i as int, n as int));
            }
            assert(lines_from(t@, i as int) == seq![this_line] + lines_from(t@, e + 1));
            assert(done.push(this_line) + lines_from(t@, e + 1) =~= done + lines_from(
                t@,
                i as int,
            ));
            lemma_items_upto_prefix(done, done.push(this_line), k as int, path@, display_detail);
        }
        match task_in(line) {
            Some(task) => {
                let item = TodoItem {
                    path: path.to_owned(),
                    task,
                    line_number: k,
                    display_detail,
                };
                items.push(item);
                assert(items@.map_values(|x: TodoItem| x@) =~= items_upto(
                    done.push(this_line),
                    k + 1,
                    path@,
                    display_detail,
                ));
            },
            None => {
                assert(items@.map_values(|x: TodoItem| x@) =~= items_upto(
                    done.push(this_line),
                    k + 1,
                    path@,
                    display_detail,
                ));
            },
        }
        proof {
            done = done.push(this_line);
        }
        k = k + 1;
        i = if e < n {
            e + 1
        } else {
            n
        };
    }
    assert(done =~= lines_of(t@));
    items
}

/// A path from the input, with the text of its file when it could be read.
#[derive(Debug)]
pub struct SourceFile {
    pub path: String,
    pub text: Option<String>,
}

impl View for SourceFile {
    type V = (Seq<char>, Option<Seq<char>>);

    open spec fn view(&self) -> (Seq<char>, Option<Seq<char>>) {
        (
            self.path@,
            match self.text {
                Some(t) => Some(t@),
                None => None,
            },
        )
    }
}

/// The items of one source: none when its file could not be read.
pub open spec fn source_items(src: (Seq<char>, Option<Seq<char>>), detail: DisplayDetail) -> Seq<
    TodoView,
> {
    match src.1 {
        Some(t) => file_items(t, src.0, detail),
        None => seq![],
    }
}

/// The items of all `sources`: those of each source in turn, in the order
/// of the sources.
pub open spec fn all_items(sources: Seq<(Seq<char>, Option<Seq<char>>)>, detail: DisplayDetail) -> Seq<
    TodoView,
>
    decreases sources.len(),
{
    if sources.len() == 0 {
        seq![]
    } else {
        all_items(sources.drop_last(), detail) + source_items(sources.last(), detail)
    }
}

/// The items of every source, in the order of the sources and, within a
/// file, in line order. A source whose file could not be read adds nothing.
pub fn collect_todos(sources: &Vec<SourceFile>, display_detail: DisplayDetail) -> (r: Vec<TodoItem>)
    ensures
        r@.map_values(|t: TodoItem| t@) == all_items(sources@.map_values(|s: SourceFile| s@), display_detail),
{
    let ghost views = sources@.map_values(|s: SourceFile| s@);
    let mut all: Vec<TodoItem> = Vec::new();
    let mut i: usize = 0;
    while i < sources.len()
        invariant
            i <= sources@.len(),
            views == sources@.map_values(|s: SourceFile| s@),
            all@.map_values(|t: TodoItem| t@) == all_items(views.take(i as int), display_detail),
        decreases sources@.len() - i,
    {
        let src = &sources[i];
        assert(views.take(i + 1).drop_last() =~= views.take(i as int));
        let ghost before = all@;
        match &src.text {
            Some(text) => {
                let mut found = todo_items_from_file(text.as_str(), src.path.as_str(), display_detail);
                let ghost found_view = found@.map_values(|t: TodoItem| t@);
                all.append(&mut found);
                assert(all@.map_values(|t: TodoItem| t@) =~= before.map_values(|t: TodoItem| t@)
                    + found_view);
            },
            None => {},
        }
        i = i + 1;
    }
    assert(views.take(sources@.len() as int) =~= views);
    all
}

/// Items gathered from consecutive parts of a list of sources, each part
/// on its own (as parallel workers do) and put together in the order of the
/// parts, are exactly the items gathered from the whole list in one pass.
pub proof fn law_parts_merge_in_order(
    first: Seq<(Seq<char>, Option<Seq<char>>)>,
    second: Seq<(Seq<char>, Option<Seq<char>>)>,
    detail: DisplayDetail,
)
    ensures
        all_items(first + second, detail) == all_items(first, detail) + all_items(second, detail),
    decreases second.len(),
{
    if second.len() == 0 {
        assert(first + second =~= first);
        assert(all_items(first, detail) + all_items(second, detail) =~= all_items(first, detail));
    } else {
        assert((first + second).drop_last() =~= first + second.drop_last());
        law_parts_merge_in_order(first, second.drop_last(), detail);
    }
}

/// A source whose file could not be read (it does not exist, is not a file,
/// or is not text) leaves the items of all other sources as they are.
pub proof fn law_unreadable_source_omitted(
    before: Seq<(Seq<char>, Option<Seq<char>>)>,
    path: Seq<char>,
    after: Seq<(Seq<char>, Option<Seq<char>>)>,
    detail: DisplayDetail,
)
    ensures
        all_items(before + seq![(path, None::<Seq<char>>)] + after, detail) == all_items(
            before + after,
            detail,
        ),
{
    let missing = seq![(path, None::<Seq<char>>)];
    law_parts_merge_in_order(before + missing, after, detail);
    law_parts_merge_in_order(before, missing, detail);
    law_parts_merge_in_order(before, after, detail);
    assert(missing.drop_last() =~= Seq::<(Seq<char>, Option<Seq<char>>)>::empty());
    assert(all_items(missing.drop_last(), detail) =~= Seq::<TodoView>::empty());
    assert(source_items(missing.last(), detail) =~= Seq::<TodoView>::empty());
    assert(all_items(missing, detail) =~= Seq::<TodoView>::empty());
    assert(all_items(before, detail) + all_items(missing, detail) =~= all_items(before, detail));
}

proof fn lemma_items_upto_path(lines: Seq<Seq<char>>, k: int, path: Seq<char>, detail: DisplayDetail)
    ensures
        forall|x: int|
            0 <= x < items_upto(lines, k, path, detail).len() ==> #[trigger] items_upto(
                lines,
                k,
                path,
                detail,
            )[x].path == path,
    decreases k,
{
    if k > 0 {
        lemma_items_upto_path(lines, k - 1, path, detail);
    }
}

proof fn lemma_all_items_from_sources(
    sources: Seq<(Seq<char>, Option<Seq<char>>)>,
    detail: DisplayDetail,
)
    requires
        forall|a: int, b: int|
            0 <= a < b < sources.len() ==> #[trigger] sources[a].0 != #[trigger] sources[b].0,
    ensures
        paths_contiguous(all_items(sources, detail)),
        forall|x: int|
            0 <= x < all_items(sources, detail).len() ==> exists|m: int|
                0 <= m < sources.len() && #[trigger] all_items(sources, detail)[x].path
                    == sources[m].0,
    decreases sources.len(),
{
    if sources.len() > 0 {
        let init = sources.drop_last();
        let q = sources.last().0;
        lemma_all_items_from_sources(init, detail);
        let a = all_items(init, detail);
        let b = source_items(sources.last(), detail);
        let all = all_items(sources, detail);
        assert(all == a + b);
        match sources.last().1 {
            Some(t) => lemma_items_upto_path(lines_of(t), lines_of(t).len() as int, q, detail),
            None => {},
        }
        assert forall|x: int| 0 <= x < b.len() implies #[trigger] b[x].path == q by {}
        assert forall|x: int| 0 <= x < a.len() implies #[trigger] a[x].path != q by {
            let m = choose|m: int| 0 <= m < init.len() && a[x].path == init[m].0;
            assert(init[m] == sources[m]);
            assert(sources[m].0 != sources[sources.len() - 1].0);
        }
        assert forall|x: int| 0 <= x < all.len() implies exists|m: int|
            0 <= m < sources.len() && #[trigger] all[x].path == sources[m].0 by {
            if x < a.len() {
                assert(all[x] == a[x]);
                let m = choose|m: int| 0 <= m < init.len() && a[x].path == init[m].0;
                assert(init[m] == sources[m]);
            } else {
                assert(all[x] == b[x - a.len()]);
                assert(all[x].path == sources[sources.len() - 1].0);
            }
        }
        assert forall|i: int, j: int, k: int|
            #![trigger all[i], all[j], all[k]]
            0 <= i < j < k < all.len() && all[i].path == all[k].path implies all[j].path
                == all[i].path by {
            if k < a.len() {
                assert(all[i] == a[i] && all[j] == a[j] && all[k] == a[k]);
            } else if i >= a.len() {
                assert(all[i] == b[i - a.len()] && all[j] == b[j - a.len()]);
            } else {
                assert(all[i] == a[i] && all[k] == b[k - a.len()]);
            }
        }
    }
}

/// When no path is listed twice, the items of all sources keep each path's
/// items adjacent, so grouping them by file yields one group per path, in
/// the order in which the paths first appear.
pub proof fn law_distinct_sources_give_contiguous_paths(
    sources: Seq<(Seq<char>, Option<Seq<char>>)>,
    detail: DisplayDetail,
)
    requires
        forall|a: int, b: int|
            0 <= a < b < sources.len() ==> #[trigger] sources[a].0 != #[trigger] sources[b].0,
    ensures
        paths_contiguous(all_items(sources, detail)),
{
    lemma_all_items_from_sources(sources, detail);
}

} // verus!

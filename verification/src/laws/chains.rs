//! What holds of inputs that are read one after the other.

use crate::chained::{chain_moves, chain_reads, goes_on, ChainedReader};
use crate::default_splitter::{read_into, DefaultSplitter, SplitterView};
use crate::error::Error;
use crate::field_set::FieldSet;
use crate::laws::reading::{law_read_takes_first_line, lines_left, will_end};
use crate::line::{DefaultLine, LineView};
use crate::line_reader::{is_default, LineReader, ReadStep};
use crate::source::Source;
use crate::split::SplitterImpl;
use vstd::prelude::*;

verus! {

/// A chain without readers delivers empty lines, and nothing ever changes.
pub proof fn law_empty_chain<R: LineReader>(after: Seq<R>, step: ReadStep<R::Line>)
    requires
        chain_reads(Seq::<R>::empty(), after, step),
    ensures
        after == Seq::<R>::empty(),
        is_default(step.line_after),
        step.result == Ok::<bool, Error>(false),
{
}

/// What a read from a chain of any readers comes to: the current reader reads, from what was
/// handed to the chain. If it fails, or has not come to its end, that is all, and the other
/// readers wait.
pub proof fn law_chain_begins_with_current<R: LineReader>(
    before: Seq<R>,
    after: Seq<R>,
    step: ReadStep<R::Line>,
) -> (r: (R, ReadStep<R::Line>))
    requires
        before.len() > 0,
        chain_reads(before, after, step),
    ensures
        R::reads(before.last(), r.0, r.1),
        r.1.pat == step.pat,
        r.1.calls_before == step.calls_before,
        r.1.line_before == step.line_before,
        r.1.result is Err || r.0.state() != 0 ==> {
            &&& after.len() == before.len()
            &&& after.last() == r.0
            &&& forall|i: int| 0 <= i < before.len() - 1 ==> #[trigger] after[i] == before[i]
            &&& step.result == r.1.result
            &&& step.line_after == r.1.line_after
            &&& step.calls_after == r.1.calls_after
        },
        r.1.result is Ok && r.0.state() == 0 ==> exists|moved: Seq<R>, next: ReadStep<R::Line>|
            {
                &&& #[trigger] chain_moves(before.update(before.len() - 1, r.0), moved, true)
                &&& #[trigger] chain_reads(moved, after, next)
                &&& next.pat == step.pat
                &&& next.calls_before == r.1.calls_after
                &&& next.line_before == r.1.line_after
                &&& step.line_after == next.line_after
                &&& step.calls_after == next.calls_after
                &&& next.result is Ok ==> step.result == Ok::<bool, Error>(true)
                &&& next.result is Err ==> step.result == next.result
            },
{
    let (cur, first) = choose|cur: R, first: ReadStep<R::Line>|
        {
            &&& #[trigger] R::reads(before.last(), cur, first)
            &&& first.pat == step.pat
            &&& first.calls_before == step.calls_before
            &&& first.line_before == step.line_before
            &&& if first.result is Err || cur.state() != 0 {
                &&& after == before.update(before.len() - 1, cur)
                &&& step == first
            } else {
                exists|moved: Seq<R>, next: ReadStep<R::Line>|
                    {
                        &&& #[trigger] chain_moves(
                            before.update(before.len() - 1, cur),
                            moved,
                            true,
                        )
                        &&& #[trigger] goes_on(step, first, next)
                        &&& chain_reads(moved, after, next)
                    }
            }
        };
    if first.result is Ok && cur.state() == 0 {
        let (moved, next) = choose|moved: Seq<R>, next: ReadStep<R::Line>|
            {
                &&& #[trigger] chain_moves(before.update(before.len() - 1, cur), moved, true)
                &&& #[trigger] goes_on(step, first, next)
                &&& chain_reads(moved, after, next)
            };
        assert(chain_moves(before.update(before.len() - 1, cur), moved, true));
        assert(chain_reads(moved, after, next));
    }
    (cur, first)
}

/// To leave the current file of a chain of any readers is to have the current reader leave
/// it. If that one has a further file, it stays the current one; otherwise it is dropped, and
/// the next one is the current one. The other readers stay. Nothing can be left in a chain
/// without readers.
pub proof fn law_chain_leaves_file<R: LineReader>(before: Seq<R>, after: Seq<R>, more: bool) -> (r:
    (R, bool))
    requires
        chain_moves(before, after, more),
    ensures
        before.len() == 0 ==> !more && after.len() == 0,
        before.len() > 0 ==> {
            &&& more
            &&& R::moves(before.last(), r.0, r.1)
            &&& r.1 ==> after.len() == before.len() && after.last() == r.0
            &&& !r.1 ==> after.len() == before.len() - 1
            &&& forall|i: int| 0 <= i < before.len() - 1 ==> #[trigger] after[i] == before[i]
        },
{
    if before.len() > 0 {
        choose|next: R, inner_more: bool| #[trigger]
            R::moves(before.last(), next, inner_more) && after == if inner_more {
                before.update(before.len() - 1, next)
            } else {
                before.drop_last()
            }
    } else {
        arbitrary()
    }
}

/// What a chain is seen as: its name and state are those of the current reader. A chain
/// without readers has no name, and is at its end. What is done to a chain is done to its
/// readers; all of them are told of the used fields.
pub proof fn law_chain_is_its_readers<R: LineReader>(
    before: ChainedReader<R>,
    after: ChainedReader<R>,
    step: ReadStep<R::Line>,
    more: bool,
    used: FieldSet,
)
    ensures
        before.readers().len() == 0 ==> before.name().len() == 0 && before.state() == 0,
        before.readers().len() > 0 ==> before.name() == before.readers().last().name()
            && before.state() == before.readers().last().state(),
        <ChainedReader<R> as LineReader>::reads(before, after, step) ==> chain_reads(
            before.readers(),
            after.readers(),
            step,
        ),
        <ChainedReader<R> as LineReader>::moves(before, after, more) ==> chain_moves(
            before.readers(),
            after.readers(),
            more,
        ),
        <ChainedReader<R> as LineReader>::restricts(before, after, used) ==> after.readers().len()
            == before.readers().len() && forall|i: int|
            0 <= i < before.readers().len() ==> R::restricts(
                #[trigger] before.readers()[i],
                after.readers()[i],
                used,
            ),
{
}

/// As long as the current file has not come to its end, a chain reads from it: the line,
/// and whether it is the first of the file, are those of the current reader, and the
/// other readers wait.
pub proof fn law_chain_reads_current<R: Source, S: SplitterImpl>(
    before: Seq<DefaultSplitter<R, S>>,
    after: Seq<DefaultSplitter<R, S>>,
    step: ReadStep<DefaultLine>,
)
    requires
        before.len() > 0,
        read_into(before.last()@, step.line_before@).0.reader.read_code() != 0,
        chain_reads(before, after, step),
    ensures
        after.len() == before.len(),
        after.drop_last() == before.drop_last(),
        (after.last()@, step.line_after@) == read_into(before.last()@, step.line_before@),
        step.result == Ok::<bool, Error>(before.last()@.start),
{
    assert(after.drop_last() =~= before.drop_last());
}

/// Once the current file has come to its end, a chain drops it for good, and reads from
/// the file after it; `next` is that read. It counts as the first read of a file.
pub proof fn law_chain_goes_on<R: Source, S: SplitterImpl>(
    before: Seq<DefaultSplitter<R, S>>,
    after: Seq<DefaultSplitter<R, S>>,
    step: ReadStep<DefaultLine>,
) -> (next: ReadStep<DefaultLine>)
    requires
        before.len() > 0,
        read_into(before.last()@, step.line_before@).0.reader.read_code() == 0,
        chain_reads(before, after, step),
    ensures
        chain_reads(before.drop_last(), after, next),
        next.pat == step.pat,
        next.calls_before == step.calls_before,
        next.calls_after == step.calls_after,
        next.line_before@ == read_into(before.last()@, step.line_before@).1,
        next.line_after == step.line_after,
        next.result is Ok ==> step.result == Ok::<bool, Error>(true),
        next.result is Err ==> step.result == next.result,
{
    let (cur, first) = choose|cur: DefaultSplitter<R, S>, first: ReadStep<DefaultLine>|
        {
            &&& #[trigger] <DefaultSplitter<R, S> as LineReader>::reads(before.last(), cur, first)
            &&& first.pat == step.pat
            &&& first.calls_before == step.calls_before
            &&& first.line_before == step.line_before
            &&& first.result is Ok
            &&& exists|moved: Seq<DefaultSplitter<R, S>>, next: ReadStep<DefaultLine>|
                {
                    &&& #[trigger] chain_moves(
                        before.update(before.len() - 1, cur),
                        moved,
                        true,
                    )
                    &&& #[trigger] goes_on(step, first, next)
                    &&& chain_reads(moved, after, next)
                }
        };
    let (moved, next) = choose|moved: Seq<DefaultSplitter<R, S>>, next: ReadStep<DefaultLine>|
        {
            &&& #[trigger] chain_moves(before.update(before.len() - 1, cur), moved, true)
            &&& #[trigger] goes_on(step, first, next)
            &&& chain_reads(moved, after, next)
        };
    assert(before.update(before.len() - 1, cur).drop_last() =~= before.drop_last());
    next
}

/// The readers of a chain, seen from outside.
pub open spec fn views<R: Source, S: SplitterImpl>(readers: Seq<DefaultSplitter<R, S>>) -> Seq<
    SplitterView<S>,
> {
    Seq::new(readers.len(), |i: int| readers[i]@)
}

/// The line that a chain without readers delivers.
pub open spec fn empty_line() -> LineView {
    LineView {
        line: Seq::empty(),
        used: FieldSet::everything(),
        fields: Seq::empty(),
        diverged: false,
        assigned: Set::empty(),
    }
}

/// One read from a chain of files, the current one last, into `line`: what becomes of the
/// chain, the line, and whether a file has begun. Files that have come to their end are
/// dropped.
pub open spec fn chain_step<S: SplitterImpl>(
    files: Seq<SplitterView<S>>,
    line: LineView,
) -> (Seq<SplitterView<S>>, LineView, bool)
    decreases files.len(),
{
    if files.len() == 0 {
        (files, empty_line(), false)
    } else {
        let (next, got) = read_into(files.last(), line);
        if next.reader.read_code() != 0 {
            (files.update(files.len() - 1, next), got, files.last().start)
        } else {
            let (after, last, _) = chain_step(files.drop_last(), got);
            (after, last, true)
        }
    }
}

/// A read from a chain of splitters never fails as a whole, and comes to what `chain_step`
/// says. It asks for no split.
pub proof fn law_chain_read<R: Source, S: SplitterImpl>(
    before: Seq<DefaultSplitter<R, S>>,
    after: Seq<DefaultSplitter<R, S>>,
    step: ReadStep<DefaultLine>,
)
    requires
        chain_reads(before, after, step),
    ensures
        ({
            let (files, line, begun) = chain_step(views(before), step.line_before@);
            &&& views(after) == files
            &&& step.line_after@ == line
            &&& step.result == Ok::<bool, Error>(begun)
            &&& step.calls_after == step.calls_before
        }),
    decreases before.len(),
{
    if before.len() == 0 {
        assert(views(after) =~= views(before));
    } else {
        let code = read_into(before.last()@, step.line_before@).0.reader.read_code();
        if code != 0 {
            law_chain_reads_current(before, after, step);
            assert forall|i: int| 0 <= i < before.len() - 1 implies after[i] == before[i] by {
                assert(after.drop_last()[i] == before.drop_last()[i]);
            }
            assert(views(after) =~= views(before).update(before.len() - 1, after.last()@));
        } else {
            let next = law_chain_goes_on(before, after, step);
            law_chain_read(before.drop_last(), after, next);
            assert(views(before.drop_last()) =~= views(before).drop_last());
        }
    }
}

/// The lines that are left in the files of a chain, one file after the other.
pub open spec fn chain_left<S: SplitterImpl>(files: Seq<SplitterView<S>>) -> Seq<Seq<u8>>
    decreases files.len(),
{
    if files.len() == 0 {
        Seq::empty()
    } else {
        lines_left(files.last().splitter, files.last().reader) + chain_left(files.drop_last())
    }
}

/// All files of a chain will come to their end, and their lines are used.
pub open spec fn chain_will_end<S: SplitterImpl>(files: Seq<SplitterView<S>>) -> bool {
    forall|i: int|
        0 <= i < files.len() ==> will_end((#[trigger] files[i]).reader) && files[i].used.is_all()
}

/// A read from a chain delivers the first of the lines that are left in its files, and leaves
/// the others; if there is none, it drops all files.
pub proof fn law_chain_takes_first_line<S: SplitterImpl>(
    files: Seq<SplitterView<S>>,
    line: LineView,
)
    requires
        chain_will_end(files),
        line.used.is_all(),
    ensures
        ({
            let left = chain_left(files);
            let (after, got, _) = chain_step(files, line);
            &&& chain_will_end(after)
            &&& got.used.is_all()
            &&& left.len() == 0 ==> after.len() == 0 && got == empty_line()
            &&& left.len() > 0 ==> {
                &&& after.len() > 0
                &&& after.last().reader.read_code() == 1
                &&& got.line == left[0]
                &&& chain_left(after) == left.skip(1)
            }
        }),
    decreases files.len(),
{
    if files.len() > 0 {
        let cur = files.last();
        let rest = files.drop_last();
        let (next, got) = read_into(cur, line);
        let here = lines_left(cur.splitter, cur.reader);
        assert(will_end(files[files.len() - 1].reader));
        law_read_takes_first_line(cur, line);
        assert(got.used.is_all());
        if here.len() == 0 {
            assert(chain_will_end(rest)) by {
                assert forall|i: int| 0 <= i < rest.len() implies will_end(
                    (#[trigger] rest[i]).reader,
                ) && rest[i].used.is_all() by {
                    assert(rest[i] == files[i]);
                }
            }
            law_chain_takes_first_line(rest, got);
            assert(chain_left(files) =~= chain_left(rest));
        } else {
            let after = files.update(files.len() - 1, next);
            assert(chain_will_end(after)) by {
                assert forall|i: int| 0 <= i < after.len() implies will_end(
                    (#[trigger] after[i]).reader,
                ) && after[i].used.is_all() by {
                    if i < files.len() - 1 {
                        assert(after[i] == files[i]);
                    }
                }
            }
            assert(after.drop_last() =~= rest);
            assert(chain_left(after) =~= chain_left(files).skip(1));
        }
    }
}

/// The lines that come of up to `n` reads from a chain, until it has come to its end.
pub open spec fn chain_lines<S: SplitterImpl>(
    files: Seq<SplitterView<S>>,
    line: LineView,
    n: nat,
) -> Seq<Seq<u8>>
    decreases n,
{
    let (after, got, _) = chain_step(files, line);
    if n == 0 || after.len() == 0 {
        Seq::empty()
    } else {
        seq![got.line] + chain_lines(after, got, (n - 1) as nat)
    }
}

/// The lines of a chain are those of its files, one file after the other, each line once and
/// in order.
pub proof fn law_chain_delivers_all_files<S: SplitterImpl>(
    files: Seq<SplitterView<S>>,
    line: LineView,
    n: nat,
)
    requires
        chain_will_end(files),
        line.used.is_all(),
        n >= chain_left(files).len(),
    ensures
        chain_lines(files, line, n) == chain_left(files),
    decreases n,
{
    let left = chain_left(files);
    let (after, got, _) = chain_step(files, line);
    law_chain_takes_first_line(files, line);
    if left.len() > 0 {
        law_chain_delivers_all_files(after, got, (n - 1) as nat);
        assert(left =~= seq![left[0]] + left.skip(1));
    } else {
        assert(chain_lines(files, line, n) =~= left);
    }
}

/// To leave the current file of a chain is to drop its reader; there is nothing to leave
/// in a chain without readers.
pub proof fn law_next_file_drops_current<R: Source, S: SplitterImpl>(
    before: Seq<DefaultSplitter<R, S>>,
    after: Seq<DefaultSplitter<R, S>>,
    more: bool,
)
    requires
        chain_moves(before, after, more),
    ensures
        more == (before.len() > 0),
        more ==> after == before.drop_last(),
        !more ==> after == before,
{
}

} // verus!

//! What holds of the access to the fields of a line.

use crate::columns::lemma_last_column;
use crate::error::{Error, Int};
use crate::field_set::FieldSet;
use crate::lazy_vec::{clamped, inserted, joined, transformed, turns_into};
use crate::laws::fields::law_projection;
use crate::line::{asked, field_at, join_range, merged, reply, same_str, LineView};
use crate::regex_cache::{pieces_of, RegexCache, RegexEngine};
use crate::split::shown;
use crate::str_impl::Str;
use vstd::prelude::*;

verus! {

/// A field that was assigned to reads as what was assigned, and needs no further split.
/// The other fields read as before.
pub proof fn law_assigned_field_reads_back(
    v: LineView,
    col: Int,
    s: Seq<u8>,
    ofs: Seq<u8>,
    reply1: Result<Seq<Seq<u8>>, Error>,
    reply2: Result<Seq<Seq<u8>>, Error>,
    other: Int,
)
    requires
        col > 0,
        other > 0,
        other != col,
        v.set_col(col, s, reply1).1 is Ok,
    ensures
        ({
            let after = v.set_col(col, s, reply1).0;
            &&& after.wants(col) is None
            &&& after.get_col(col, ofs, reply2) == (after, Ok::<Seq<u8>, Error>(s))
            &&& after.get_col(other, ofs, reply2).1 == v.get_col(other, ofs, reply1).1
        }),
{
    let fields = v.split_by(reply1).fields;
    let after = v.set_col(col, s, reply1).0;
    assert(after.fields == inserted(fields, col - 1, s));
    assert(after.fields[col - 1] == s);
    if other - 1 < after.fields.len() && other - 1 >= fields.len() {
        assert(after.fields[other - 1] == Seq::<u8>::empty());
    }
}

/// After assignments to fields, the line reads as its fields with the output separator
/// between each two; and then it is that line, for any separator, until a further
/// assignment.
pub proof fn law_line_follows_fields(
    v: LineView,
    col: Int,
    s: Seq<u8>,
    ofs: Seq<u8>,
    other_ofs: Seq<u8>,
    reply1: Result<Seq<Seq<u8>>, Error>,
    reply2: Result<Seq<Seq<u8>>, Error>,
)
    requires
        col > 0,
        v.used.is_all(),
        v.set_col(col, s, reply1).1 is Ok,
    ensures
        ({
            let after = v.set_col(col, s, reply1).0;
            let whole = joined(inserted(v.split_by(reply1).fields, col - 1, s), ofs);
            let (put_together, r) = after.get_col(0, ofs, reply2);
            &&& r == Ok::<Seq<u8>, Error>(whole)
            &&& put_together.fields == after.fields
            &&& put_together.get_col(0, other_ofs, reply2) == (
                put_together,
                Ok::<Seq<u8>, Error>(whole),
            )
        }),
{
}

/// A line that was assigned as a whole reads as what was assigned, whatever happened to
/// it before. Its fields are split from it anew.
pub proof fn law_assigned_line_reads_back(
    v: LineView,
    s: Seq<u8>,
    ofs: Seq<u8>,
    reply1: Result<Seq<Seq<u8>>, Error>,
    reply2: Result<Seq<Seq<u8>>, Error>,
)
    ensures
        ({
            let after = v.set_col(0, s, reply1).0;
            &&& after.get_col(0, ofs, reply2) == (after, Ok::<Seq<u8>, Error>(s))
            &&& after.wants(1) == Some(v.used)
            &&& after.line == s
        }),
{
}

/// The fields that were assigned to since the line was last put together are always fields
/// of the line.
pub proof fn law_assigned_fields_are_fields(
    v: LineView,
    col: Int,
    s: Seq<u8>,
    ofs: Seq<u8>,
    reply: Result<Seq<Seq<u8>>, Error>,
)
    requires
        v.ok(),
    ensures
        v.set_col(col, s, reply).0.ok(),
        v.get_col(col, ofs, reply).0.ok(),
{
    let after = v.set_col(col, s, reply).0;
    if col > 0 && v.set_col(col, s, reply).1 is Ok {
        assert(after.assigned.contains(col as int));
        assert forall|c: int| #[trigger] after.assigned.contains(c) implies 1 <= c
            <= after.fields.len() by {
            if c != col {
                assert(v.assigned.contains(c));
            }
        }
    }
    if v.fields.len() == 0 {
        assert(v.assigned =~= Set::<int>::empty());
    }
}

/// No assignment is lost where fields were left out: `full` is what the line splits into,
/// of which those that are used were filled in. The line is put together from what was
/// assigned, whether or not the field was used or there at all, and from `full` elsewhere;
/// where an assigned field lies behind the last of `full`, those in between are empty.
pub proof fn law_left_out_fields_return(v: LineView, full: Seq<Seq<u8>>, ofs: Seq<u8>)
    requires
        v.ok(),
        v.diverged,
        !v.used.is_all(),
        forall|i: int|
            0 <= i < full.len() && v.used.has(i + 1) && !v.assigned.contains(i + 1)
                ==> #[trigger] field_at(v.fields, i) == full[i],
    ensures
        ({
            let (whole, r) = v.get_col(0, ofs, Ok(full));
            &&& v.wants(0) == Some(FieldSet::everything())
            &&& r == Ok::<Seq<u8>, Error>(joined(whole.fields, ofs))
            &&& whole.used.is_all()
            &&& whole.fields.len() >= full.len()
            &&& forall|c: int| #[trigger]
                v.assigned.contains(c) ==> 1 <= c <= whole.fields.len() && whole.fields[c - 1]
                    == v.fields[c - 1]
            &&& forall|i: int|
                0 <= i < whole.fields.len() && !v.assigned.contains(i + 1)
                    ==> #[trigger] whole.fields[i] == field_at(full, i)
            &&& whole.fields.len() > full.len() ==> v.assigned.contains(
                whole.fields.len() as int,
            )
        }),
{
    lemma_last_column(v.assigned, v.fields.len());
    let whole = v.get_col(0, ofs, Ok(full)).0;
    assert forall|i: int|
        0 <= i < whole.fields.len() && !v.assigned.contains(
            i + 1,
        ) implies #[trigger] whole.fields[i] == field_at(full, i) by {
        if i < full.len() && v.used.has(i + 1) {
            assert(field_at(v.fields, i) == full[i]);
        }
    }
}

/// A line after the assignments `sets`, each to a field and of a text, in order.
pub open spec fn after_sets(
    v: LineView,
    sets: Seq<(Int, Seq<u8>)>,
    reply: Result<Seq<Seq<u8>>, Error>,
) -> LineView
    decreases sets.len(),
{
    if sets.len() == 0 {
        v
    } else {
        after_sets(v, sets.drop_last(), reply).set_col(sets.last().0, sets.last().1, reply).0
    }
}

/// Fields after the assignments `sets`.
pub open spec fn fields_after(
    fields: Seq<Seq<u8>>,
    sets: Seq<(Int, Seq<u8>)>,
) -> Seq<Seq<u8>>
    decreases sets.len(),
{
    if sets.len() == 0 {
        fields
    } else {
        inserted(fields_after(fields, sets.drop_last()), sets.last().0 - 1, sets.last().1)
    }
}

/// What is kept of a line and its fields while assignments are made, where `full` is what
/// the line splits into.
proof fn lemma_after_sets(v: LineView, full: Seq<Seq<u8>>, sets: Seq<(Int, Seq<u8>)>)
    requires
        sets.len() > 0,
        forall|k: int| 0 <= k < sets.len() ==> (#[trigger] sets[k]).0 > 0,
        v.assigned == Set::<int>::empty(),
        v.fields.len() == 0 || v.fields == shown(full, v.used),
    ensures
        ({
            let after = after_sets(v, sets, Ok(shown(full, v.used)));
            let want = fields_after(full, sets);
            &&& after.ok()
            &&& after.diverged
            &&& after.used == v.used
            &&& after.line == v.line
            &&& after.fields.len() == want.len() >= full.len()
            &&& want.len() > full.len() ==> after.assigned.contains(want.len() as int)
            &&& forall|i: int|
                0 <= i < want.len() ==> #[trigger] want[i] == if after.assigned.contains(i + 1) {
                    after.fields[i]
                } else {
                    field_at(full, i)
                }
            &&& forall|i: int|
                0 <= i < full.len() && v.used.has(i + 1) && !after.assigned.contains(i + 1)
                    ==> #[trigger] after.fields[i] == full[i]
            &&& forall|i: int|
                full.len() <= i < want.len() && !after.assigned.contains(i + 1)
                    ==> #[trigger] after.fields[i] == Seq::<u8>::empty()
        }),
    decreases sets.len(),
{
    let reply = Ok::<Seq<Seq<u8>>, Error>(shown(full, v.used));
    let front = sets.drop_last();
    let col = sets.last().0;
    let before = after_sets(v, front, reply);
    let after = after_sets(v, sets, reply);
    let want = fields_after(full, sets);
    assert(sets[sets.len() - 1].0 > 0);
    assert(after == before.set_col(col, sets.last().1, reply).0);
    if front.len() > 0 {
        assert forall|k: int| 0 <= k < front.len() implies (#[trigger] front[k]).0 > 0 by {
            assert(front[k] == sets[k]);
        }
        lemma_after_sets(v, full, front);
        assert(before.assigned != Set::<int>::empty());
        if before.fields.len() == 0 {
            assert(before.assigned =~= Set::<int>::empty());
        }
    } else {
        assert(before == v);
        assert(before.split_by(reply).fields == shown(full, v.used));
    }
    assert(after.assigned == before.assigned.insert(col as int));
    assert(after.assigned.contains(col as int));
    let old_fields = before.split_by(reply).fields;
    let old_want = fields_after(full, front);
    assert(after.fields == inserted(old_fields, col - 1, sets.last().1));
    assert(old_fields.len() == old_want.len());
    assert(want == inserted(old_want, col - 1, sets.last().1));
    assert forall|i: int| 0 <= i < want.len() implies #[trigger] want[i]
        == if after.assigned.contains(i + 1) {
        after.fields[i]
    } else {
        field_at(full, i)
    } by {
        if i < old_want.len() && i != col - 1 {
            assert(want[i] == old_want[i]);
            assert(after.fields[i] == old_fields[i]);
        }
    }
    assert forall|i: int|
        0 <= i < full.len() && v.used.has(i + 1) && !after.assigned.contains(
            i + 1,
        ) implies #[trigger] after.fields[i] == full[i] by {
        assert(after.fields[i] == old_fields[i]);
    }
    assert forall|i: int|
        full.len() <= i < want.len() && !after.assigned.contains(
            i + 1,
        ) implies #[trigger] after.fields[i] == Seq::<u8>::empty() by {
        if i < old_fields.len() {
            assert(after.fields[i] == old_fields[i]);
        }
    }
    assert forall|c: int| #[trigger] after.assigned.contains(c) implies 1 <= c
        <= after.fields.len() by {
        if c != col {
            assert(before.assigned.contains(c));
        }
    }
}

/// Whatever was assigned to the fields of a line, whichever of them were used, the line
/// then reads as what it splits into, `full`, with those assignments made, and the output
/// separator between each two fields. No assignment is lost, and no field.
pub proof fn law_line_follows_assignments(
    v: LineView,
    full: Seq<Seq<u8>>,
    sets: Seq<(Int, Seq<u8>)>,
    ofs: Seq<u8>,
)
    requires
        sets.len() > 0,
        forall|k: int| 0 <= k < sets.len() ==> (#[trigger] sets[k]).0 > 0,
        v.assigned == Set::<int>::empty(),
        v.fields.len() == 0 || v.fields == shown(full, v.used),
    ensures
        ({
            let after = after_sets(v, sets, Ok(shown(full, v.used)));
            let (whole, r) = after.get_col(0, ofs, Ok(full));
            &&& after.wants(0) == if v.used.is_all() {
                None
            } else {
                Some(FieldSet::everything())
            }
            &&& after.line == v.line
            &&& whole.fields == fields_after(full, sets)
            &&& r == Ok::<Seq<u8>, Error>(joined(fields_after(full, sets), ofs))
            &&& whole.used.is_all()
        }),
{
    let after = after_sets(v, sets, Ok(shown(full, v.used)));
    let want = fields_after(full, sets);
    lemma_after_sets(v, full, sets);
    lemma_last_column(after.assigned, after.fields.len());
    if v.used.is_all() {
        law_projection(full, v.used);
        assert forall|i: int| 0 <= i < want.len() implies after.fields[i] == #[trigger] want[i] by {
            if i < full.len() {
                v.used.lemma_all_has(i + 1);
                assert(after.assigned.contains(i + 1) || after.fields[i] == full[i]);
            }
        }
        assert(after.fields =~= want);
    } else {
        assert(merged(after.used, after.assigned, after.fields, full) =~= want);
    }
}

/// The number of fields after an assignment to field `col` of a line whose fields were
/// counted before: `col`, if there were less, and otherwise as many as before. The line is
/// not split again to count them. (Where the count was 0, the assignment has the line split
/// again, and what comes of that is taken to be the same.)
pub proof fn law_assignment_counts_fields(
    v: LineView,
    col: Int,
    s: Seq<u8>,
    reply1: Result<Seq<Seq<u8>>, Error>,
    reply2: Result<Seq<Seq<u8>>, Error>,
)
    requires
        col > 0,
        v.fields.len() > 0 || reply1 is Ok,
        v.split_by(reply1).fields.len() > 0 || reply2 == reply1,
    ensures
        ({
            let counted = v.split_by(reply1);
            let (after, r) = counted.set_col(col, s, reply2);
            &&& r is Ok
            &&& after.wants(1) is None
            &&& after.fields.len() == if col > counted.fields.len() {
                col as nat
            } else {
                counted.fields.len()
            }
        }),
{
}

/// To read behind the last field of a line whose fields were counted before gives the empty
/// string, and changes nothing. (Where the count was 0, the line is split again, and what
/// comes of that is taken to be the same.)
pub proof fn law_read_past_last_field(
    v: LineView,
    col: Int,
    ofs: Seq<u8>,
    reply1: Result<Seq<Seq<u8>>, Error>,
    reply2: Result<Seq<Seq<u8>>, Error>,
)
    requires
        v.fields.len() > 0 || reply1 is Ok,
        v.split_by(reply1).fields.len() > 0 || reply2 == reply1,
        col > v.split_by(reply1).fields.len(),
    ensures
        ({
            let counted = v.split_by(reply1);
            counted.get_col(col, ofs, reply2) == (counted, Ok::<Seq<u8>, Error>(Seq::empty()))
        }),
{
    let counted = v.split_by(reply1);
    assert(counted.get_col(col, ofs, reply2).0 =~= counted);
}

/// An assignment to the line as a whole leaves nothing of the line before it, but for the
/// fields that are used: the number of fields, and the fields, are those that the new text
/// splits into. To count them again gives the same. (Where the count was 0, the line is
/// split again, and what comes of that is taken to be the same.)
pub proof fn law_assigned_line_is_all_there_is(
    v: LineView,
    w: LineView,
    s: Seq<u8>,
    pieces: Seq<Seq<u8>>,
    reply: Result<Seq<Seq<u8>>, Error>,
)
    requires
        v.used == w.used,
        pieces.len() > 0 || reply == Ok::<Seq<Seq<u8>>, Error>(pieces),
    ensures
        ({
            let after = v.set_col(0, s, reply).0;
            let counted = after.split_by(Ok(pieces));
            &&& after == w.set_col(0, s, reply).0
            &&& after.line == s
            &&& after.wants(1) == Some(v.used)
            &&& counted.fields == pieces
            &&& counted.split_by(reply) == counted
        }),
{
    let counted = v.set_col(0, s, reply).0.split_by(Ok(pieces));
    assert(counted.split_by(reply) =~= counted);
}

/// To read a field, or the line, changes neither the fields nor the line that are read
/// afterwards.
pub proof fn law_reading_twice(
    v: LineView,
    col: Int,
    ofs: Seq<u8>,
    reply1: Result<Seq<Seq<u8>>, Error>,
    reply2: Result<Seq<Seq<u8>>, Error>,
)
    requires
        v.get_col(col, ofs, reply1).1 is Ok,
        col > 0 ==> v.split_by(reply1).fields.len() > 0,
    ensures
        ({
            let (after, r) = v.get_col(col, ofs, reply1);
            &&& after.wants(col) is None
            &&& after.get_col(col, ofs, reply2) == (after, r)
        }),
{
}

/// An access that fails leaves the line and its fields as they were. All that can change is
/// which fields are used: if it was the line as a whole that could not be had, all of them
/// are from then on.
pub proof fn law_failure_keeps_line_and_fields(
    v: LineView,
    col: Int,
    s: Seq<u8>,
    ofs: Seq<u8>,
    reply: Result<Seq<Seq<u8>>, Error>,
)
    ensures
        v.set_col(col, s, reply).1 is Err ==> v.set_col(col, s, reply).0 == v,
        v.get_col(col, ofs, reply).1 is Err ==> v.get_col(col, ofs, reply).0 == (LineView {
            used: if col == 0 {
                FieldSet::everything()
            } else {
                v.used
            },
            ..v
        }),
{
}

/// Each field of a line reads as what the line was split into at that place, or as what was
/// assigned there: it is the one with that number, counted from 1. Behind the last one there
/// are empty fields only. To read a field changes nothing but that the line is split, if it
/// was not.
pub proof fn law_field_reads_as_it_is(
    v: LineView,
    col: Int,
    ofs: Seq<u8>,
    reply: Result<Seq<Seq<u8>>, Error>,
)
    requires
        col > 0,
        v.fields.len() > 0 || reply is Ok,
    ensures
        ({
            let fields = if v.fields.len() > 0 {
                v.fields
            } else {
                reply->Ok_0
            };
            let (after, r) = v.get_col(col, ofs, reply);
            &&& r is Ok
            &&& col <= fields.len() ==> r->Ok_0 == fields[col - 1]
            &&& col > fields.len() ==> r->Ok_0.len() == 0
            &&& after.fields == fields
            &&& after.line == v.line
            &&& after.used == v.used
            &&& after.diverged == v.diverged
            &&& after.assigned == v.assigned
            &&& v.split_by(reply) == after
        }),
{
    let fields = if v.fields.len() > 0 {
        v.fields
    } else {
        reply->Ok_0
    };
    assert(v.get_col(col, ofs, reply).0.fields =~= fields);
}

/// A line without assignments reads as it is, and nothing changes. After assignments, if all
/// fields are used, it reads as its fields with the output separator between each two, and
/// that is the line from then on.
pub proof fn law_line_reads_as_it_is(
    v: LineView,
    ofs: Seq<u8>,
    reply: Result<Seq<Seq<u8>>, Error>,
)
    ensures
        !v.diverged ==> v.get_col(0, ofs, reply) == (v, Ok::<Seq<u8>, Error>(v.line)),
        v.diverged && v.used.is_all() ==> ({
            let (after, r) = v.get_col(0, ofs, reply);
            &&& r == Ok::<Seq<u8>, Error>(joined(v.fields, ofs))
            &&& after.line == joined(v.fields, ofs)
            &&& after.fields == v.fields
            &&& after.used == v.used
            &&& !after.diverged
            &&& after.assigned == Set::<int>::empty()
        }),
{
}

/// After an assignment to a field, that field is what was assigned, those in front of it that
/// were not there are empty, and all others are what they were. The text of the line and the
/// used fields stay; the field is noted as assigned to.
pub proof fn law_assignment_changes_one_field(
    v: LineView,
    col: Int,
    s: Seq<u8>,
    reply: Result<Seq<Seq<u8>>, Error>,
)
    requires
        col > 0,
        v.fields.len() > 0 || reply is Ok,
    ensures
        ({
            let fields = if v.fields.len() > 0 {
                v.fields
            } else {
                reply->Ok_0
            };
            let (after, r) = v.set_col(col, s, reply);
            &&& r is Ok
            &&& after.fields.len() >= fields.len()
            &&& after.fields.len() >= col
            &&& after.fields.len() == fields.len() || after.fields.len() == col
            &&& after.fields[col - 1] == s
            &&& forall|i: int|
                0 <= i < fields.len() && i != col - 1 ==> #[trigger] after.fields[i] == fields[i]
            &&& forall|i: int|
                fields.len() <= i < after.fields.len() && i != col - 1 ==> (
                #[trigger] after.fields[i]).len() == 0
            &&& after.line == v.line
            &&& after.used == v.used
            &&& after.diverged
            &&& forall|c: int| #[trigger]
                after.assigned.contains(c) <==> v.assigned.contains(c) || c == col
        }),
{
    let fields = if v.fields.len() > 0 {
        v.fields
    } else {
        reply->Ok_0
    };
    assert(v.split_by(reply).fields =~= fields);
}

/// An access fails exactly if the number of the field is negative, or if a split was needed
/// and could not be had; the error says which.
pub proof fn law_access_fails(
    v: LineView,
    col: Int,
    s: Seq<u8>,
    ofs: Seq<u8>,
    reply: Result<Seq<Seq<u8>>, Error>,
)
    ensures
        col < 0 ==> v.get_col(col, ofs, reply).1 == Err::<Seq<u8>, Error>(
            Error::NegativeField(col),
        ),
        col < 0 ==> v.set_col(col, s, reply).1 == Err::<(), Error>(Error::NegativeField(col)),
        col >= 0 ==> (v.get_col(col, ofs, reply).1 is Err <==> v.wants(col) is Some
            && reply is Err),
        col >= 0 && v.get_col(col, ofs, reply).1 is Err ==> v.get_col(col, ofs, reply).1->Err_0
            == reply->Err_0,
        col > 0 ==> (v.set_col(col, s, reply).1 is Err <==> v.wants(col) is Some && reply is Err),
        col > 0 && v.set_col(col, s, reply).1 is Err ==> v.set_col(col, s, reply).1->Err_0
            == reply->Err_0,
        col == 0 ==> v.set_col(col, s, reply).1 is Ok,
{
}

/// When a line is split, and with which fields: for a field, if there are no fields, with
/// those that are used; for the line as a whole, if it has diverged from its fields and some
/// were left out, with all.
pub proof fn law_split_only_if_needed(v: LineView, col: Int)
    ensures
        col > 0 && v.fields.len() == 0 ==> v.wants(col) == Some(v.used),
        col > 0 && v.fields.len() > 0 ==> v.wants(col) is None,
        col == 0 && v.diverged && !v.used.is_all() ==> (v.wants(col) matches Some(used)
            && used.is_all()),
        col == 0 && (!v.diverged || v.used.is_all()) ==> v.wants(col) is None,
        col < 0 ==> v.wants(col) is None,
{
}

/// Where a split is wanted, the engine is asked for one split of that line by that pattern
/// with those fields, and what counts is its answer to just that; where none is, it is not
/// asked.
pub proof fn law_engine_is_asked<E: RegexEngine>(
    before: RegexCache<E>,
    after: RegexCache<E>,
    pat: Seq<u8>,
    line: Seq<u8>,
    wanted: Option<FieldSet>,
)
    requires
        asked(before, after, pat, line, wanted),
    ensures
        wanted matches Some(used) ==> {
            &&& E::splits(
                before.engine(),
                after.engine(),
                pat,
                line,
                used,
                reply(after.calls(), wanted),
            )
            &&& after.calls().len() == before.calls().len() + 1
            &&& after.calls().drop_last() == before.calls()
            &&& after.calls().last().pat == pat
            &&& after.calls().last().line == line
            &&& after.calls().last().used == used
            &&& after.calls().last().reply == reply(after.calls(), wanted)
        },
        wanted is None ==> after.engine() == before.engine() && after.calls() == before.calls(),
{
    if wanted is Some {
        assert(after.calls().drop_last() =~= before.calls());
    }
}

/// The fields that an engine has found are taken over one by one, and so is the reason of a
/// failure.
pub proof fn law_pieces(r: Result<Vec<Str>, String>)
    ensures
        r matches Ok(items) ==> {
            &&& pieces_of(r) is Ok
            &&& pieces_of(r)->Ok_0.len() == items@.len()
            &&& forall|i: int|
                0 <= i < items@.len() ==> #[trigger] pieces_of(r)->Ok_0[i] == items@[i]@
        },
        r matches Err(why) ==> pieces_of(r) == Err::<Seq<Seq<u8>>, Error>(Error::Split(why)),
{
}

/// A string that is handed out is the one that was meant, and so is an error.
pub proof fn law_same_str(r: Result<Str, Error>, s: Result<Seq<u8>, Error>)
    requires
        same_str(r, s),
    ensures
        r is Ok <==> s is Ok,
        r is Ok ==> r->Ok_0@ == s->Ok_0,
        r is Err ==> r->Err_0 == s->Err_0,
{
}

/// What a line is put together from after some fields were left out and some assigned to: each
/// field that was assigned to is what was assigned. Of the others, those that were used are
/// what they were, as far as the line splits into them, and the rest is what the line splits
/// into. If the last one that was assigned to lies behind that, those in between are empty.
pub proof fn law_rebuilt_fields(v: LineView, pieces: Seq<Seq<u8>>, ofs: Seq<u8>)
    requires
        v.ok(),
        v.diverged,
        !v.used.is_all(),
    ensures
        ({
            let (whole, r) = v.get_col(0, ofs, Ok(pieces));
            &&& r == Ok::<Seq<u8>, Error>(joined(whole.fields, ofs))
            &&& whole.line == joined(whole.fields, ofs)
            &&& !whole.diverged
            &&& whole.assigned == Set::<int>::empty()
            &&& whole.used.is_all()
            &&& whole.fields.len() >= pieces.len()
            &&& whole.fields.len() > pieces.len() ==> v.assigned.contains(
                whole.fields.len() as int,
            )
            &&& forall|c: int| #[trigger]
                v.assigned.contains(c) ==> c <= whole.fields.len() && whole.fields[c - 1]
                    == v.fields[c - 1]
            &&& forall|i: int|
                0 <= i < pieces.len() && !v.assigned.contains(i + 1) && !v.used.has(i + 1)
                    ==> #[trigger] whole.fields[i] == pieces[i]
            &&& forall|i: int|
                0 <= i < pieces.len() && i < v.fields.len() && !v.assigned.contains(i + 1)
                    && v.used.has(i + 1) ==> #[trigger] whole.fields[i] == v.fields[i]
            &&& forall|i: int|
                pieces.len() <= i < whole.fields.len() && !v.assigned.contains(i + 1) ==> (
                #[trigger] whole.fields[i]).len() == 0
        }),
{
    lemma_last_column(v.assigned, v.fields.len());
}

/// How fields are joined: nothing for none, the field for one, and otherwise the first, the
/// separator, and the rest joined.
pub proof fn law_joined(items: Seq<Seq<u8>>, sep: Seq<u8>)
    ensures
        items.len() == 0 ==> joined(items, sep).len() == 0,
        items.len() == 1 ==> joined(items, sep) == items[0],
        items.len() > 1 ==> joined(items, sep) == items[0] + sep + joined(items.skip(1), sep),
    decreases items.len(),
{
    if items.len() == 2 {
        reveal_with_fuel(joined, 3);
        assert(items.skip(1)[0] == items[1]);
    } else if items.len() > 2 {
        let front = items.drop_last();
        let rest = items.skip(1);
        law_joined(front, sep);
        assert(front.skip(1) =~= rest.drop_last());
        assert(rest.last() == items.last());
        assert(joined(items, sep) =~= items[0] + sep + joined(rest, sep));
    }
}

/// A join covers just the columns that it names, as far as there are that many, in order.
pub proof fn law_join_covers_named_columns(fields: Seq<Seq<u8>>, start: int, end: int)
    requires
        1 <= start,
        1 <= end,
    ensures
        ({
            let nf = fields.len() as int;
            let last = if end < nf {
                end
            } else {
                nf
            };
            let (lo, hi) = join_range(start, end, nf);
            let covered = clamped(fields, lo, hi);
            &&& covered.len() == if start <= last {
                last - start + 1
            } else {
                0
            }
            &&& forall|c: int|
                start <= c <= last ==> covered[c - start] == #[trigger] fields[c - 1]
        }),
{
    let nf = fields.len() as int;
    let last = if end < nf {
        end
    } else {
        nf
    };
    let (lo, hi) = join_range(start, end, nf);
    let covered = clamped(fields, lo, hi);
    assert forall|c: int| start <= c <= last implies covered[c - start] == #[trigger] fields[c
        - 1] by {
        assert(covered[c - start] == fields[lo + (c - start)]);
    }
}

/// The range that a join covers of `nf` columns: it holds the number `i`, counted from 0,
/// exactly if column `i + 1` is named and there. It lies within the columns, and if it is
/// empty, it is so at the last one that is named.
pub proof fn law_join_range(start: int, end: int, nf: int, i: int)
    requires
        1 <= start,
        1 <= end,
        0 <= nf,
    ensures
        ({
            let (lo, hi) = join_range(start, end, nf);
            &&& 0 <= lo <= hi <= nf
            &&& lo <= i < hi <==> start <= i + 1 <= end && 0 <= i < nf
            &&& hi <= end
            &&& hi == end || hi == nf
        }),
{
}

/// The items from `start` up to, but without, `end`, as far as there are any.
pub proof fn law_clamped(fields: Seq<Seq<u8>>, start: int, end: int)
    requires
        0 <= start <= end,
    ensures
        forall|i: int|
            start <= i < end && i < fields.len() ==> i - start < clamped(fields, start, end).len()
                && clamped(fields, start, end)[i - start] == #[trigger] fields[i],
        clamped(fields, start, end).len() <= end - start,
        start <= fields.len() ==> start + clamped(fields, start, end).len() <= fields.len(),
        start > fields.len() ==> clamped(fields, start, end).len() == 0,
{
    assert forall|i: int| start <= i < end && i < fields.len() implies i - start < clamped(
        fields,
        start,
        end,
    ).len() && clamped(fields, start, end)[i - start] == #[trigger] fields[i] by {
        assert(clamped(fields, start, end)[i - start] == fields[start + (i - start)]);
    }
}

/// Each of the joined items is what the transformation makes of the field at that place.
pub proof fn law_transformed<F: FnMut(Str) -> Str>(
    trans: F,
    from: Seq<Seq<u8>>,
    to: Seq<Seq<u8>>,
    i: int,
) -> (r: (Str, Str))
    requires
        transformed(trans, from, to),
        0 <= i < from.len(),
    ensures
        to.len() == from.len(),
        r.0@ == from[i],
        r.1@ == to[i],
        call_ensures(trans, (r.0,), r.1),
{
    assert(turns_into(trans, from[i], to[i]));
    choose|x: Str, y: Str|
        x@ == from[i] && y@ == to[i] && #[trigger] call_ensures(trans, (x,), y)
}

/// A join without a transformation of the items is the fields, in order, with the separator
/// between each two.
pub proof fn law_plain_join<F: FnMut(Str) -> Str>(
    trans: F,
    from: Seq<Seq<u8>>,
    to: Seq<Seq<u8>>,
)
    requires
        transformed(trans, from, to),
        forall|x: Str, y: Str| #[trigger] call_ensures(trans, (x,), y) ==> y@ == x@,
    ensures
        to == from,
{
    assert forall|i: int| 0 <= i < from.len() implies to[i] == from[i] by {
        let (x, y) = law_transformed(trans, from, to, i);
    }
    assert(to =~= from);
}

/// What an insertion at `index` makes of items.
pub proof fn law_inserted(items: Seq<Seq<u8>>, index: int, item: Seq<u8>)
    requires
        0 <= index,
    ensures
        ({
            let after = inserted(items, index, item);
            &&& after.len() >= items.len()
            &&& after.len() > index
            &&& after.len() == items.len() || after.len() == index + 1
            &&& after[index] == item
            &&& forall|i: int|
                0 <= i < items.len() && i != index ==> #[trigger] after[i] == items[i]
            &&& forall|i: int|
                items.len() <= i < index ==> (#[trigger] after[i]).len() == 0
        }),
{
}

/// A join from the first field to the last covers all fields.
pub proof fn law_full_join_covers_all(fields: Seq<Seq<u8>>, end: int)
    requires
        end >= fields.len(),
        end >= 1,
    ensures
        ({
            let (lo, hi) = join_range(1, end, fields.len() as int);
            clamped(fields, lo, hi) == fields
        }),
{
    let (lo, hi) = join_range(1, end, fields.len() as int);
    assert(clamped(fields, lo, hi) =~= fields);
}

/// A join of no fields, from a start behind the end, is empty.
pub proof fn law_backward_join_is_empty(fields: Seq<Seq<u8>>, start: int, end: int, nf: int)
    requires
        0 < end < start,
        0 <= nf,
    ensures
        ({
            let (lo, hi) = join_range(start, end, nf);
            clamped(fields, lo, hi).len() == 0
        }),
{
}

} // verus!

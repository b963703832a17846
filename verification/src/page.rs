//! The calendar of a year: its months, laid out side by side in rows.

use vstd::prelude::*;
use vstd::string::StringExecFns;
use crate::advanced_iterator::joined;
use crate::advanced_iterator::texts;
use crate::advanced_iterator::AdvancedIterator;
use crate::chain_all::chained;
use crate::chain_all::lemma_chain_remaining;
use crate::chain_all::lemma_flatten_map;
use crate::chunk::chunked;
use crate::chunk::lemma_chunked_count;
use crate::chunk::lemma_chunked_keeps;
use crate::chunk::lemma_chunk_remaining;
use crate::chunk::lemma_chunked_map;
use crate::chunk::lemma_transpose_of_equal_rows;
use crate::chunk::Chunk;
use crate::date::dates;
use crate::date::groups;
use crate::date::DateRange;
use crate::date::GroupKey;
use crate::format::month_lines;
use crate::format::try_layout_month;
use crate::format::MonthLayout;
use crate::format::WEEK_LINES;
use crate::gregorian::civil_day;
use crate::gregorian::MAX_YEAR;
use crate::gregorian::MIN_YEAR;
use crate::interleave::columns;
use crate::interleave::Interleave;
use crate::sequence::fused;
use crate::sequence::lemma_pulled;
use crate::sequence::remaining;
use crate::sequence::Buffered;
use crate::sequence::Sequence;

verus! {

/// The number of lines of a laid out month: the title and the weeks.
pub const MONTH_LINES: usize = 7;

/// Line `index` of a row of months: that line of each month, one after the
/// other.
pub open spec fn row_line(row: Seq<Seq<Seq<char>>>, index: int) -> Seq<char> {
    row.map_values(|lines: Seq<Seq<char>>| lines[index]).flatten()
}

/// The lines of a row of months laid side by side.
pub open spec fn row_lines(row: Seq<Seq<Seq<char>>>) -> Seq<Seq<char>> {
    Seq::new(MONTH_LINES as nat, |index: int| row_line(row, index))
}

/// The lines of each of the months.
pub open spec fn lines_of_months(months: Seq<DateRange>) -> Seq<Seq<Seq<char>>> {
    months.map_values(|month: DateRange| month_lines(month))
}

/// The lines of a page that shows `per_line` months side by side, given the
/// lines of each month: the months are cut into rows, and the lines of the
/// rows follow one another.
pub open spec fn page_lines(months: Seq<Seq<Seq<char>>>, per_line: nat) -> Seq<Seq<char>> {
    chunked(months, per_line).map_values(|row: Seq<Seq<Seq<char>>>| row_lines(row)).flatten()
}

/// The text of a page: its lines, each ended by a line break but the last.
pub open spec fn page_text(months: Seq<Seq<Seq<char>>>, per_line: nat) -> Seq<char> {
    joined(page_lines(months, per_line), seq!['\n'])
}

/// The months of a year, as ranges of dates.
pub open spec fn months_of(year: int) -> Seq<DateRange> {
    groups(GroupKey::Month, civil_day(year, 1, 1), civil_day(year + 1, 1, 1))
}

/// Whether each of the months has at most six weeks.
pub open spec fn months_fit(months: Seq<DateRange>) -> bool {
    forall|i: int|
        0 <= i < months.len() ==> groups(
            GroupKey::Week,
            (#[trigger] months[i]).start@,
            months[i].end@,
        ).len() <= WEEK_LINES
}

/// The text of the calendar of a year: its lines, each ended by a line break
/// but the last.
pub open spec fn calendar_text(year: int, per_line: nat) -> Seq<char> {
    page_text(lines_of_months(months_of(year)), per_line)
}

/// The text of a line whose parts are held in a buffer: the parts, one after
/// the other.
pub open spec fn line_text(parts: Buffered<String>) -> Seq<char> {
    texts(parts.items()).flatten()
}

/// The texts of lines whose parts are held in buffers.
pub open spec fn line_texts(lines: Seq<Buffered<String>>) -> Seq<Seq<char>> {
    lines.map_values(|parts: Buffered<String>| line_text(parts))
}

/// The texts of the lines of a laid out month.
pub open spec fn layout_text(layout: MonthLayout) -> Seq<Seq<char>> {
    texts(layout.items())
}

/// The texts of the lines of each of the laid out months.
pub open spec fn layout_texts(layouts: Seq<MonthLayout>) -> Seq<Seq<Seq<char>>> {
    layouts.map_values(|layout: MonthLayout| layout_text(layout))
}

/// The lines of a row of laid out months, each line as the parts that the
/// months give to it.
pub open spec fn row_columns(row: Seq<MonthLayout>) -> Seq<Seq<String>> {
    columns(row.map_values(|layout: MonthLayout| layout.items()), MONTH_LINES as nat)
}

/// The lines that a transposed row of months still has to yield, each line
/// as its parts.
pub open spec fn line_parts(transposed: Chunk<Interleave<MonthLayout>>) -> Seq<Seq<String>> {
    remaining(transposed).map_values(|parts: Buffered<String>| parts.items())
}

/// Writes the parts of a line one after the other.
pub fn collect_string(parts: Buffered<String>) -> (text: String)
    ensures
        text@ == line_text(parts),
{
    let mut parts = parts;
    let ghost all = parts.items();
    let mut text = String::new();
    let ghost mut seen: int = 0;
    proof {
        assert(texts(all.take(0)) =~= Seq::<Seq<char>>::empty());
        assert(all.skip(0) =~= all);
    }
    loop
        invariant_except_break
            parts.items() == all.skip(seen),
        invariant
            0 <= seen <= all.len(),
            text@ == texts(all.take(seen)).flatten(),
        ensures
            text@ == texts(all).flatten(),
        decreases all.len() - seen,
    {
        match parts.next() {
            Some(part) => {
                text.append(part.as_str());
                proof {
                    texts(all.take(seen)).lemma_flatten_push(part@);
                    assert(texts(all.take(seen + 1)) =~= texts(all.take(seen)).push(part@));
                    assert(all.skip(seen).drop_first() =~= all.skip(seen + 1));
                    seen = seen + 1;
                }
            },
            None => {
                proof {
                    assert(all.take(seen) =~= all);
                }
                break ;
            },
        }
    }
    text
}

/// Rows of laid out months, transposed and chained, yield the lines of the
/// page.
proof fn lemma_page_lines(
    per_line: nat,
    laid: Seq<MonthLayout>,
    transposes: Seq<Chunk<Interleave<MonthLayout>>>,
)
    requires
        per_line > 0,
        forall|i: int| 0 <= i < laid.len() ==> (#[trigger] laid[i]).items().len() == MONTH_LINES,
        transposes.len() == chunked(laid, per_line).len(),
        forall|j: int|
            0 <= j < transposes.len() ==> line_parts(#[trigger] transposes[j]) == row_columns(
                chunked(laid, per_line)[j],
            ),
    ensures
        line_texts(chained(transposes)) == page_lines(layout_texts(laid), per_line),
{
    let rows = chunked(laid, per_line);
    let to_text = |layout: MonthLayout| layout_text(layout);
    let to_line = |parts: Buffered<String>| line_text(parts);
    lemma_chunked_map(laid, per_line, to_text);
    let yields = transposes.map_values(|row: Chunk<Interleave<MonthLayout>>| remaining(row));
    lemma_flatten_map(yields, to_line);
    let ours = yields.map_values(|row: Seq<Buffered<String>>| row.map_values(to_line));
    let theirs = chunked(layout_texts(laid), per_line).map_values(
        |row: Seq<Seq<Seq<char>>>| row_lines(row),
    );
    lemma_chunked_keeps(laid, per_line, |layout: MonthLayout| layout.items().len() == MONTH_LINES);
    assert(ours =~= theirs) by {
        assert forall|j: int| 0 <= j < rows.len() implies ours[j] =~= theirs[j] by {
            let row = rows[j];
            let parts = line_parts(transposes[j]);
            assert(parts == row_columns(row));
            assert(ours[j].len() == parts.len());
            assert forall|k: int| 0 <= k < MONTH_LINES implies ours[j][k] == theirs[j][k] by {
                assert(parts[k] == remaining(transposes[j])[k].items());
                let here = texts(parts[k]);
                let there = row.map_values(to_text).map_values(
                    |lines: Seq<Seq<char>>| lines[k],
                );
                assert(here =~= there) by {
                    assert forall|m: int| 0 <= m < row.len() implies here[m] == there[m] by {
                        assert(row[m].items().len() == MONTH_LINES);
                    }
                }
            }
        }
    }
}

/// Arranges laid out months on a page, `months_per_line` of them side by
/// side: for each row of months the seven lines of the months, laid side by
/// side, and a line break between each two lines.
pub fn arrange(layouts: Vec<MonthLayout>, months_per_line: usize) -> (text: String)
    requires
        months_per_line > 0,
        forall|i: int|
            0 <= i < layouts@.len() ==> (#[trigger] layouts@[i]).items().len() == MONTH_LINES,
    ensures
        text@ == page_text(layout_texts(layouts@), months_per_line as nat),
{
    let ghost per_line = months_per_line as nat;
    let ghost laid = layouts@;
    let ghost rows = chunked(laid, per_line);
    let ghost row_buffers = rows.map_values(|run: Seq<MonthLayout>| Buffered::of(run));
    let mut chunks = Buffered::from_vec(layouts).chunk(months_per_line);
    let mut transposes: Vec<Chunk<Interleave<MonthLayout>>> = Vec::new();
    proof {
        Buffered::lemma_items_of(laid);
        chunks.source().lemma_remaining_items();
        lemma_chunk_remaining(chunks);
        assert(row_buffers.skip(0) =~= row_buffers);
        lemma_chunked_count(laid, per_line);
        lemma_chunked_keeps(
            laid,
            per_line,
            |layout: MonthLayout| layout.items().len() == MONTH_LINES,
        );
    }
    loop
        invariant_except_break
            remaining(chunks) == row_buffers.skip(transposes@.len() as int),
        invariant
            chunks.inv(),
            rows == chunked(laid, per_line),
            row_buffers == rows.map_values(|run: Seq<MonthLayout>| Buffered::of(run)),
            forall|j: int| 0 <= j < rows.len() ==> 0 < (#[trigger] rows[j]).len(),
            forall|j: int, m: int|
                0 <= j < rows.len() && 0 <= m < rows[j].len() ==> (#[trigger] rows[j][m]).items().len()
                    == MONTH_LINES,
            transposes@.len() <= rows.len(),
            forall|j: int|
                0 <= j < transposes@.len() ==> (#[trigger] transposes@[j]).inv() && line_parts(
                    transposes@[j],
                ) == row_columns(rows[j]),
        ensures
            transposes@.len() == rows.len(),
        decreases rows.len() - transposes@.len(),
    {
        let ghost done = transposes@.len() as int;
        let ghost before = chunks;
        match chunks.next() {
            Some(row) => {
                proof {
                    lemma_pulled(before, chunks);
                    assert(remaining(before)[0] == row);
                    assert(row_buffers.skip(done)[0] == row_buffers[done]);
                    assert(row == row_buffers[done]);
                    assert(row_buffers.skip(done).drop_first() =~= row_buffers.skip(done + 1));
                    Buffered::lemma_items_of(rows[done]);
                    row.lemma_remaining_items();
                    assert(remaining(row) == rows[done]);
                }
                let transposed = row.transpose();
                proof {
                    let source = transposed.source();
                    let pending = source.pending();
                    assert forall|m: int| 0 <= m < source.rows().len() implies fused(
                        #[trigger] source.rows()[m],
                    ) && remaining(source.rows()[m]).len() == MONTH_LINES && remaining(
                        source.rows()[m],
                    ) == rows[done][m].items() by {
                        assert(source.rows()[m] == rows[done][m]);
                        rows[done][m].lemma_remaining_items();
                    }
                    assert(pending =~= rows[done].map_values(
                        |layout: MonthLayout| layout.items(),
                    ));
                    lemma_transpose_of_equal_rows(transposed, MONTH_LINES as nat);
                }
                transposes.push(transposed);
            },
            None => {
                proof {
                    lemma_pulled(before, chunks);
                }
                break ;
            },
        }
    }
    let ghost transposed_rows = transposes@;
    let mut parts = Buffered::from_vec(transposes).chain_all();
    let ghost all_parts = chained(transposed_rows);
    let mut lines: Vec<String> = Vec::new();
    proof {
        Buffered::lemma_items_of(transposed_rows);
        parts.outer().lemma_remaining_items();
        assert forall|j: int| j >= 0 implies ((#[trigger] parts.outer().at(j)) matches Some(
            row,
        ) ==> row.inv()) by {
            if j < transposed_rows.len() {
                assert(parts.outer().at(j) == Some(transposed_rows[j]));
            }
        }
        lemma_chain_remaining(parts);
        assert(remaining(parts) =~= all_parts);
        assert(all_parts.skip(0) =~= all_parts);
        assert(line_texts(all_parts.take(0)) =~= texts(lines@));
    }
    loop
        invariant_except_break
            remaining(parts) == all_parts.skip(lines@.len() as int),
        invariant
            parts.inv(),
            lines@.len() <= all_parts.len(),
            texts(lines@) == line_texts(all_parts.take(lines@.len() as int)),
        ensures
            texts(lines@) == line_texts(all_parts),
        decreases all_parts.len() - lines@.len(),
    {
        let ghost done = lines@.len() as int;
        let ghost so_far = lines@;
        let ghost before = parts;
        match parts.next() {
            Some(part) => {
                lines.push(collect_string(part));
                proof {
                    lemma_pulled(before, parts);
                    assert(remaining(before)[0] == part);
                    assert(all_parts.skip(done)[0] == all_parts[done]);
                    assert(all_parts.skip(done).drop_first() =~= all_parts.skip(done + 1));
                    assert(texts(lines@) =~= texts(so_far).push(line_text(part)));
                    assert(line_texts(all_parts.take(done + 1)) =~= line_texts(
                        all_parts.take(done),
                    ).push(line_text(part)));
                }
            },
            None => {
                proof {
                    lemma_pulled(before, parts);
                    assert(all_parts.take(done) =~= all_parts);
                }
                break ;
            },
        }
    }
    let mut all_lines = Buffered::from_vec(lines);
    proof {
        lemma_page_lines(per_line, laid, transposed_rows);
        Buffered::lemma_items_of(lines@);
        all_lines.lemma_remaining_items();
        reveal_strlit("\n");
        assert("\n"@ =~= seq!['\n']);
    }
    all_lines.join("\n")
}

/// The calendar of a year as text, `months_per_line` months side by side:
/// for each row of months the seven lines of the months, laid side by side,
/// and a line break between each two lines. There is no calendar where a
/// month has more than six weeks.
pub fn calendar(year: i32, months_per_line: usize) -> (text: Option<String>)
    requires
        MIN_YEAR <= year < MAX_YEAR,
        months_per_line > 0,
    ensures
        text is Some <==> months_fit(months_of(year as int)),
        text matches Some(written) ==> written@ == calendar_text(
            year as int,
            months_per_line as nat,
        ),
{
    let ghost months = months_of(year as int);
    let mut by_month = dates(year).by_month();
    let mut layouts: Vec<MonthLayout> = Vec::new();
    proof {
        assert(months.skip(0) =~= months);
    }
    loop
        invariant_except_break
            by_month.pending() == months.skip(layouts@.len() as int),
        invariant
            months == months_of(year as int),
            layouts@.len() <= months.len(),
            forall|i: int|
                0 <= i < layouts@.len() ==> (#[trigger] layouts@[i]).items().len() == MONTH_LINES
                    && layout_text(layouts@[i]) == month_lines(months[i]),
            forall|i: int|
                0 <= i < layouts@.len() ==> groups(
                    GroupKey::Week,
                    (#[trigger] months[i]).start@,
                    months[i].end@,
                ).len() <= WEEK_LINES,
        ensures
            layouts@.len() == months.len(),
        decreases months.len() - layouts@.len(),
    {
        let ghost done = layouts@.len() as int;
        match by_month.next() {
            Some(month) => {
                proof {
                    assert(month == months[done]);
                    assert(months.skip(done).drop_first() =~= months.skip(done + 1));
                }
                match try_layout_month(month) {
                    Some(layout) => {
                        layouts.push(layout);
                    },
                    None => {
                        proof {
                            assert(groups(
                                GroupKey::Week,
                                months[done].start@,
                                months[done].end@,
                            ).len() > WEEK_LINES);
                        }
                        return None;
                    },
                }
            },
            None => {
                break ;
            },
        }
    }
    proof {
        assert(layout_texts(layouts@) =~= lines_of_months(months));
    }
    Some(arrange(layouts, months_per_line))
}

} // verus!

//! A guess at where a line lies in a file that has not been indexed so far.

use crate::document::state::{offsets_ok, Document};
use crate::document::text::line_start_from;
use crate::scan::{ends_line, is_either, CR, LF};
use crate::tree_model::{max_int, min_int, sat_add};
use vstd::prelude::*;

verus! {

/// How far back from an estimated place the start of a line is looked for.
pub const APPROX_LINE_BACKTRACK_BYTES: usize = 65_536;

/// How far behind an estimated place the end of a line is looked for.
pub const APPROX_LINE_FORWARD_BYTES: usize = 65_536;

/// The product, or the largest number where that is less.
pub open spec fn sat_mul(a: int, b: int) -> usize {
    if a * b > usize::MAX {
        usize::MAX
    } else {
        (a * b) as usize
    }
}

fn times(a: usize, b: usize) -> (product: usize)
    ensures
        product == sat_mul(a as int, b as int),
{
    match a.checked_mul(b) {
        Some(product) => product,
        None => usize::MAX,
    }
}

/// The last byte of `lo..hi` that can end a line.
pub open spec fn last_break(text: Seq<u8>, lo: int, hi: int) -> Option<int>
    decreases hi - lo,
{
    if hi <= lo {
        None
    } else if is_either(text[hi - 1], LF, CR) {
        Some(hi - 1)
    } else {
        last_break(text, lo, hi - 1)
    }
}

/// The first byte of `lo..hi` that can end a line.
pub open spec fn first_break(text: Seq<u8>, lo: int, hi: int) -> Option<int>
    decreases hi - lo,
{
    if lo >= hi {
        None
    } else if is_either(text[lo], LF, CR) {
        Some(lo)
    } else {
        first_break(text, lo + 1, hi)
    }
}

/// What follows the line end that starts at `at`.
pub open spec fn behind_break(text: Seq<u8>, at: int) -> int {
    if text[at] == CR && at + 1 < text.len() && text[at + 1] == LF {
        at + 2
    } else {
        at + 1
    }
}

/// The line around an estimated place, as far as it is looked for.
pub open spec fn range_around(text: Seq<u8>, approx: int) -> (int, int) {
    let back_limit = max_int(approx - APPROX_LINE_BACKTRACK_BYTES, 0);
    let forward_limit = min_int(approx + APPROX_LINE_FORWARD_BYTES, text.len() as int);
    let found = match last_break(text, back_limit, approx) {
        Some(at) => behind_break(text, at),
        None => back_limit,
    };
    let start = min_int(found, forward_limit);
    let end = match first_break(text, start, forward_limit) {
        Some(at) => behind_break(text, at),
        None => forward_limit,
    };
    (start, end)
}

pub proof fn lemma_last_break(text: Seq<u8>, lo: int, hi: int, at: int)
    requires
        0 <= lo <= at < hi <= text.len(),
        is_either(text[at], LF, CR),
        forall|i: int| at < i < hi ==> !is_either(#[trigger] text[i], LF, CR),
    ensures
        last_break(text, lo, hi) == Some(at),
    decreases hi - at,
{
    if at < hi - 1 {
        assert(!is_either(text[hi - 1], LF, CR));
        lemma_last_break(text, lo, hi - 1, at);
    }
}

proof fn lemma_first_break(text: Seq<u8>, lo: int, hi: int, at: Option<int>)
    requires
        0 <= lo <= hi <= text.len(),
        match at {
            Some(at) => lo <= at < hi && is_either(text[at], LF, CR) && forall|i: int|
                lo <= i < at ==> !is_either(#[trigger] text[i], LF, CR),
            None => forall|i: int| lo <= i < hi ==> !is_either(#[trigger] text[i], LF, CR),
        },
    ensures
        first_break(text, lo, hi) == at,
    decreases hi - lo,
{
    if lo < hi {
        if at == Some(lo) {
        } else {
            assert(!is_either(text[lo], LF, CR));
            lemma_first_break(text, lo + 1, hi, at);
        }
    }
}

impl Document {
    /// Where line `line0` is looked for: at its start where that is known, and else as far
    /// behind the nearest known line as the lines between would take.
    pub open spec fn spec_approx_offset(self, line0: usize) -> int {
        let avg = self.spec_avg_line_len() as int;
        let offsets = self.line_offsets@;
        let guess: int = if line0 < offsets.len() {
            offsets[line0 as int] as int
        } else {
            match self.spec_disk_checkpoint(line0) {
                Some(checkpoint) => sat_add(
                    checkpoint.byte0 as int,
                    sat_mul(max_int(line0 - checkpoint.line0, 0), avg) as int,
                ) as int,
                None => if offsets.len() == 0 {
                    sat_mul(line0 as int, avg) as int
                } else {
                    sat_add(
                        offsets[offsets.len() - 1] as int,
                        sat_mul(line0 - (offsets.len() - 1), avg) as int,
                    ) as int
                },
            }
        };
        min_int(guess, self.file_text().len() - 1)
    }

    /// Where line `line0` probably lies; nothing for an empty file or a line that is known
    /// not to exist.
    pub open spec fn spec_estimated_range(self, line0: usize) -> Option<(int, int)> {
        let text = self.file_text();
        let beyond = match self.spec_disk_total_lines() {
            Some(lines) => line0 >= lines,
            None => false,
        };
        if text.len() == 0 || beyond {
            None
        } else {
            Some(range_around(text, self.spec_approx_offset(line0)))
        }
    }

    fn approx_line_offset(&self, line0: usize) -> (approx: usize)
        requires
            self.file_text().len() > 0,
        ensures
            approx == self.spec_approx_offset(line0),
            approx < self.file_text().len(),
    {
        let avg: usize = self.avg_line_len();
        let guess: usize = if let Some(start) = self.line_offsets.get_usize(line0) {
            start
        } else if let Some(checkpoint) = self.disk_index_checkpoint_for_line(line0) {
            let lines: usize = line0.saturating_sub(checkpoint.line0);
            checkpoint.byte0.saturating_add(times(lines, avg))
        } else if self.line_offsets.is_empty() {
            times(line0, avg)
        } else {
            let anchor_line0: usize = self.line_offsets.len() - 1;
            let anchor_byte0: usize = match self.line_offsets.get_usize(anchor_line0) {
                Some(start) => start,
                None => 0,
            };
            anchor_byte0.saturating_add(times(line0 - anchor_line0, avg))
        };
        let last: usize = self.file_bytes().len() - 1;
        if guess <= last {
            guess
        } else {
            last
        }
    }

    /// Where line `line0` of the file probably lies.
    pub fn estimated_mmap_line_byte_range(&self, line0: usize) -> (range: Option<(usize, usize)>)
        ensures
            match self.spec_estimated_range(line0) {
                Some((start, end)) => {
                    &&& range is Some
                    &&& range->Some_0.0 == start
                    &&& range->Some_0.1 == end
                    &&& start <= end <= self.file_text().len()
                },
                None => range is None,
            },
    {
        let bytes = self.file_bytes();
        let file_len: usize = bytes.len();
        if file_len == 0 {
            return None;
        }
        if let Some(total_lines) = self.disk_index_total_lines() {
            if line0 >= total_lines {
                return None;
            }
        }
        let approx: usize = self.approx_line_offset(line0);
        let back_limit: usize = approx.saturating_sub(APPROX_LINE_BACKTRACK_BYTES);
        let mut start0: usize = back_limit;
        let mut at: usize = approx;
        let ghost text = bytes@;
        while at > back_limit
            invariant_except_break
                start0 == back_limit,
                at == back_limit ==> last_break(text, back_limit as int, approx as int) is None,
                forall|i: int| at <= i < approx ==> !is_either(#[trigger] text[i], LF, CR),
            invariant
                back_limit <= at <= approx < file_len,
                file_len == bytes@.len(),
                text == bytes@,
            ensures
                start0 <= file_len,
                start0 == (match last_break(text, back_limit as int, approx as int) {
                    Some(found) => behind_break(text, found),
                    None => back_limit as int,
                }),
            decreases at,
        {
            at = at - 1;
            if bytes[at] == LF || bytes[at] == CR {
                start0 = after_break(bytes, at);
                proof {
                    lemma_last_break(text, back_limit as int, approx as int, at as int);
                }
                break;
            }
            if at == back_limit {
                proof {
                    lemma_no_break_back(text, back_limit as int, approx as int);
                }
            }
        }
        let forward_limit: usize = if file_len - approx > APPROX_LINE_FORWARD_BYTES {
            approx + APPROX_LINE_FORWARD_BYTES
        } else {
            file_len
        };
        if start0 > forward_limit {
            start0 = forward_limit;
        }
        let ahead = vstd::slice::slice_subrange(bytes, start0, forward_limit);
        let found = memchr::memchr2(LF, CR, ahead);
        proof {
            assert forall|i: int| 0 <= i < ahead@.len() implies #[trigger] ahead@[i] == text[start0
                + i] by {}
            let place = match found {
                Some(rel) => Some(start0 + rel),
                None => None,
            };
            match place {
                Some(place) => {
                    assert(ahead@[place - start0] == text[place]);
                    assert forall|i: int| start0 <= i < place implies !is_either(
                        #[trigger] text[i],
                        LF,
                        CR,
                    ) by {
                        assert(ahead@[i - start0] == text[i]);
                    }
                },
                None => {
                    assert forall|i: int| start0 <= i < forward_limit implies !is_either(
                        #[trigger] text[i],
                        LF,
                        CR,
                    ) by {
                        assert(ahead@[i - start0] == text[i]);
                    }
                },
            }
            lemma_first_break(text, start0 as int, forward_limit as int, place);
        }
        let end0: usize = match found {
            Some(rel) => after_break(bytes, start0 + rel),
            None => forward_limit,
        };
        Some((start0, end0))
    }
}

proof fn lemma_no_break_back(text: Seq<u8>, lo: int, hi: int)
    requires
        0 <= lo <= hi <= text.len(),
        forall|i: int| lo <= i < hi ==> !is_either(#[trigger] text[i], LF, CR),
    ensures
        last_break(text, lo, hi) is None,
    decreases hi - lo,
{
    if lo < hi {
        assert(!is_either(text[hi - 1], LF, CR));
        lemma_no_break_back(text, lo, hi - 1);
    }
}

fn after_break(bytes: &[u8], at: usize) -> (next: usize)
    requires
        at < bytes@.len(),
    ensures
        next == behind_break(bytes@, at as int),
        at < next <= bytes@.len(),
{
    if bytes[at] == CR && at + 1 < bytes.len() && bytes[at + 1] == LF {
        at + 2
    } else {
        at + 1
    }
}

/// The first line end from a place on is where the next line starts.
pub proof fn lemma_next_line(text: Seq<u8>, lo: int, hi: int)
    requires
        0 <= lo <= hi <= text.len(),
        line_start_from(text, lo, 1) <= hi,
        lo < hi,
    ensures
        line_start_from(text, lo, 1) == (match first_break(text, lo, hi) {
            Some(at) => behind_break(text, at),
            None => hi,
        }),
    decreases hi - lo,
{
    reveal_with_fuel(line_start_from, 3);
    if is_either(text[lo], LF, CR) {
        if ends_line(text, lo) {
        } else {
            assert(ends_line(text, lo + 1));
        }
    } else {
        assert(!ends_line(text, lo));
        if lo + 1 < hi {
            lemma_next_line(text, lo + 1, hi);
        } else {
            lemma_line_start_beyond(text, lo + 1, 1);
        }
    }
}

pub proof fn lemma_line_start_beyond(text: Seq<u8>, i: int, k: nat)
    requires
        0 <= i <= text.len(),
    ensures
        i <= line_start_from(text, i, k) <= text.len(),
        k > 0 && i < text.len() ==> i < line_start_from(text, i, k),
    decreases text.len() - i,
{
    if k > 0 && i < text.len() {
        lemma_line_start_beyond(
            text,
            i + 1,
            if ends_line(text, i) {
                (k - 1) as nat
            } else {
                k
            },
        );
    }
}

/// The range of a line whose start is known is the line itself, unless it is longer than what
/// is looked at, or is the empty line at the end of the file.
pub proof fn law_estimate_of_known_line(doc: Document, line0: usize)
    requires
        offsets_ok(doc.line_offsets@, doc.file_text()),
        line0 < doc.line_offsets@.len(),
        doc.line_offsets@[line0 as int] < doc.file_text().len(),
        line_start_from(doc.file_text(), doc.line_offsets@[line0 as int] as int, 1)
            <= doc.line_offsets@[line0 as int] + APPROX_LINE_FORWARD_BYTES,
        doc.spec_disk_total_lines() is Some ==> line0 < doc.spec_disk_total_lines()->Some_0,
    ensures
        doc.spec_estimated_range(line0) == Some(
            (
                doc.line_offsets@[line0 as int] as int,
                line_start_from(doc.file_text(), doc.line_offsets@[line0 as int] as int, 1),
            ),
        ),
{
    let text = doc.file_text();
    let start = doc.line_offsets@[line0 as int] as int;
    let limit = min_int(start + APPROX_LINE_FORWARD_BYTES, text.len() as int);
    let back = max_int(start - APPROX_LINE_BACKTRACK_BYTES, 0);
    if start > 0 {
        assert(ends_line(text, start - 1));
        lemma_last_break(text, back, start, start - 1);
    }
    lemma_line_start_beyond(text, start, 1);
    lemma_next_line(text, start, limit);
}

} // verus!

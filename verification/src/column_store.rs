//! Splitting comma-separated lines into one store per column.
use vstd::prelude::*;

verus! {

/// The field separator.
pub const SEPARATOR: u8 = 44;

/// The line separator written between the values of a column.
pub const NEWLINE: u8 = 10;

/// The fields of a line: the pieces between separators, in order; a line
/// with `n` separators has `n + 1` fields.
pub open spec fn split_spec(line: Seq<u8>) -> Seq<Seq<u8>>
    decreases line.len(),
{
    if line.len() == 0 {
        seq![Seq::<u8>::empty()]
    } else {
        let front = split_spec(line.drop_last());
        if line.last() == SEPARATOR {
            front.push(Seq::empty())
        } else {
            front.update(front.len() - 1, front.last().push(line.last()))
        }
    }
}

/// The fields joined again, with a separator between each two.
pub open spec fn join_spec(fields: Seq<Seq<u8>>) -> Seq<u8>
    decreases fields.len(),
{
    if fields.len() == 0 {
        Seq::empty()
    } else if fields.len() == 1 {
        fields[0]
    } else {
        join_spec(fields.drop_last()) + seq![SEPARATOR] + fields.last()
    }
}

/// A line has at least one field.
proof fn lemma_split_nonempty(line: Seq<u8>)
    ensures
        split_spec(line).len() >= 1,
    decreases line.len(),
{
    if line.len() > 0 {
        lemma_split_nonempty(line.drop_last());
    }
}

/// Joining the fields of a line with separators gives the line back.
pub proof fn law_split_join(line: Seq<u8>)
    ensures
        join_spec(split_spec(line)) == line,
    decreases line.len(),
{
    if line.len() > 0 {
        let pre = line.drop_last();
        let front = split_spec(pre);
        law_split_join(pre);
        lemma_split_nonempty(pre);
        let n = front.len();
        if line.last() == SEPARATOR {
            let fs = front.push(Seq::empty());
            assert(fs.drop_last() =~= front);
            assert(join_spec(fs) =~= join_spec(front) + seq![SEPARATOR]);
        } else {
            let fs = front.update(n - 1, front.last().push(line.last()));
            if n == 1 {
                assert(join_spec(fs) =~= front[0].push(line.last()));
            } else {
                assert(fs.drop_last() =~= front.drop_last());
                assert(join_spec(fs) =~= join_spec(front.drop_last()) + seq![SEPARATOR] + front.last().push(line.last()));
            }
        }
        assert(pre.push(line.last()) =~= line);
    }
}

/// No field of a line holds a separator, and the number of fields is one
/// more than the number of separators in the line.
pub proof fn law_split_fields_hold_no_separator(line: Seq<u8>)
    ensures
        forall|f: int, j: int| 0 <= f < split_spec(line).len() && 0 <= j < split_spec(line)[f].len() ==>
            #[trigger] split_spec(line)[f][j] != SEPARATOR,
        split_spec(line).len() == line.filter(|c: u8| c == SEPARATOR).len() + 1,
    decreases line.len(),
{
    if line.len() > 0 {
        let pre = line.drop_last();
        law_split_fields_hold_no_separator(pre);
        lemma_split_nonempty(pre);
        assert(pre.push(line.last()) =~= line);
        pre.lemma_filter_push(line.last(), |c: u8| c == SEPARATOR);
        let front = split_spec(pre);
        if line.last() != SEPARATOR {
            let n = front.len();
            assert forall|f: int, j: int| 0 <= f < split_spec(line).len() && 0 <= j < split_spec(line)[f].len() implies
                #[trigger] split_spec(line)[f][j] != SEPARATOR by {
                if f == n - 1 && j == front.last().len() {
                } else if f == n - 1 {
                    assert(split_spec(line)[f][j] == front[f][j]);
                } else {
                    assert(split_spec(line)[f] == front[f]);
                }
            }
        } else {
            assert forall|f: int, j: int| 0 <= f < split_spec(line).len() && 0 <= j < split_spec(line)[f].len() implies
                #[trigger] split_spec(line)[f][j] != SEPARATOR by {
                if f < front.len() {
                    assert(split_spec(line)[f] == front[f]);
                }
            }
        }
    } else {
        assert(line.filter(|c: u8| c == SEPARATOR) =~= Seq::<u8>::empty()) by {
            reveal_with_fuel(Seq::filter, 1);
        }
    }
}

/// Splits a line at every separator.
pub fn split_fields(line: &[u8]) -> (fields: Vec<Vec<u8>>)
    ensures
        fields@.len() == split_spec(line@).len(),
        forall|i: int| 0 <= i < fields@.len() ==> #[trigger] fields@[i]@ == split_spec(line@)[i],
{
    let mut fields: Vec<Vec<u8>> = Vec::new();
    let mut current: Vec<u8> = Vec::new();
    let mut i: usize = 0;
    proof {
        assert(line@.subrange(0, 0) =~= Seq::<u8>::empty());
    }
    while i < line.len()
        invariant
            i <= line.len(),
            fields@.len() + 1 == split_spec(line@.subrange(0, i as int)).len(),
            forall|x: int| 0 <= x < fields@.len() ==> #[trigger] fields@[x]@ == split_spec(line@.subrange(0, i as int))[x],
            current@ == split_spec(line@.subrange(0, i as int)).last(),
        decreases line.len() - i,
    {
        let ghost pre = line@.subrange(0, i as int);
        let ghost now = line@.subrange(0, i + 1);
        proof {
            assert(now.drop_last() =~= pre);
            assert(now.last() == line@[i as int]);
            lemma_split_nonempty(pre);
        }
        let c = line[i];
        if c == SEPARATOR {
            let mut done: Vec<u8> = Vec::new();
            std::mem::swap(&mut current, &mut done);
            fields.push(done);
        } else {
            current.push(c);
        }
        i += 1;
    }
    proof {
        assert(line@.subrange(0, line.len() as int) =~= line@);
    }
    fields.push(current);
    proof {
        assert forall|x: int| 0 <= x < fields@.len() implies #[trigger] fields@[x]@ == split_spec(line@)[x] by {}
    }
    fields
}

/// What column `w` receives from the first `n` rows: each row that has a
/// field `w` adds it, after a line separator unless it is the first row.
pub open spec fn column_spec(rows: Seq<Seq<Seq<u8>>>, w: int, n: int) -> Seq<u8>
    decreases n,
{
    if n <= 0 {
        Seq::empty()
    } else {
        let before = column_spec(rows, w, n - 1);
        if w < rows[n - 1].len() {
            before + (if n - 1 > 0 { seq![NEWLINE] } else { Seq::<u8>::empty() }) + rows[n - 1][w]
        } else {
            before
        }
    }
}

/// Column `w` of the first `n` rows is the rows' contributions laid end to
/// end: a row `r` that has a field `w` contributes that whole field, after a
/// line separator unless `r` is the first row; a row without one contributes
/// nothing.
pub proof fn law_column_lays_fields_end_to_end(rows: Seq<Seq<Seq<u8>>>, w: int, n: int)
    requires
        0 <= n <= rows.len(),
    ensures
        column_spec(rows, w, n) == Seq::new(
            n as nat,
            |r: int|
                if w < rows[r].len() {
                    (if r > 0 { seq![NEWLINE] } else { Seq::<u8>::empty() }) + rows[r][w]
                } else {
                    Seq::<u8>::empty()
                },
        ).flatten(),
    decreases n,
{
    let pieces = Seq::new(
        n as nat,
        |r: int|
            if w < rows[r].len() {
                (if r > 0 { seq![NEWLINE] } else { Seq::<u8>::empty() }) + rows[r][w]
            } else {
                Seq::<u8>::empty()
            },
    );
    pieces.lemma_flatten_and_flatten_alt_are_equivalent();
    if n > 0 {
        law_column_lays_fields_end_to_end(rows, w, n - 1);
        let front = Seq::new(
            (n - 1) as nat,
            |r: int|
                if w < rows[r].len() {
                    (if r > 0 { seq![NEWLINE] } else { Seq::<u8>::empty() }) + rows[r][w]
                } else {
                    Seq::<u8>::empty()
                },
        );
        assert(pieces.drop_last() =~= front);
        front.lemma_flatten_and_flatten_alt_are_equivalent();
        assert(pieces.flatten_alt() == front.flatten_alt() + pieces.last());
        if w < rows[n - 1].len() {
            assert(column_spec(rows, w, n) =~= front.flatten() + pieces.last());
        } else {
            assert(column_spec(rows, w, n) =~= front.flatten() + pieces.last());
        }
    } else {
        assert(pieces.flatten() =~= Seq::<u8>::empty());
    }
}

/// The fields of the rows, as plain byte sequences.
pub open spec fn rows_view(rows: Seq<Vec<Vec<u8>>>) -> Seq<Seq<Seq<u8>>> {
    Seq::new(rows.len(), |r: int| Seq::new(rows[r]@.len(), |w: int| rows[r]@[w]@))
}

/// Appends `src` to `dst`.
fn append_bytes(dst: &mut Vec<u8>, src: &Vec<u8>)
    ensures
        final(dst)@ == old(dst)@ + src@,
{
    let mut i: usize = 0;
    let ghost start = dst@;
    while i < src.len()
        invariant
            i <= src.len(),
            dst@ == start + src@.subrange(0, i as int),
        decreases src.len() - i,
    {
        dst.push(src[i]);
        proof {
            assert(src@.subrange(0, i + 1) =~= src@.subrange(0, i as int).push(src@[i as int]));
        }
        i += 1;
    }
    proof {
        assert(src@.subrange(0, src.len() as int) =~= src@);
    }
}

/// Distributes the fields of the rows (lines) to `num_cols` column stores:
/// field `w` of every row goes to column `w`, preceded by a line separator
/// in every row but the first. No row may have more fields than there are
/// columns.
pub fn route_fields(rows: &Vec<Vec<Vec<u8>>>, num_cols: usize) -> (columns: Vec<Vec<u8>>)
    requires
        forall|r: int| 0 <= r < rows.len() ==> #[trigger] rows@[r].len() <= num_cols,
    ensures
        columns.len() == num_cols,
        forall|w: int| 0 <= w < num_cols ==> #[trigger] columns@[w]@ == column_spec(rows_view(rows@), w, rows.len() as int),
{
    let ghost rv = rows_view(rows@);
    let mut columns: Vec<Vec<u8>> = Vec::new();
    let mut w: usize = 0;
    while w < num_cols
        invariant
            w <= num_cols,
            columns.len() == w,
            forall|x: int| 0 <= x < w ==> #[trigger] columns@[x]@ == Seq::<u8>::empty(),
        decreases num_cols - w,
    {
        columns.push(Vec::new());
        w += 1;
    }
    let mut is_first_line = true;
    let mut r: usize = 0;
    while r < rows.len()
        invariant
            r <= rows.len(),
            rv == rows_view(rows@),
            is_first_line == (r == 0),
            columns.len() == num_cols,
            forall|x: int| 0 <= x < rows.len() ==> #[trigger] rows@[x].len() <= num_cols,
            forall|x: int| 0 <= x < num_cols ==> #[trigger] columns@[x]@ == column_spec(rv, x, r as int),
        decreases rows.len() - r,
    {
        let items = &rows[r];
        let mut writer_index: usize = 0;
        let ghost before = columns@;
        while writer_index < items.len()
            invariant
                writer_index <= items.len(),
                items.len() <= num_cols,
                items@ == rows@[r as int]@,
                rv == rows_view(rows@),
                r < rows.len(),
                is_first_line == (r == 0),
                columns.len() == num_cols,
                forall|x: int| 0 <= x < writer_index ==> #[trigger] columns@[x]@ == column_spec(rv, x, r + 1),
                forall|x: int| writer_index <= x < num_cols ==> #[trigger] columns@[x] == before[x],
                forall|x: int| 0 <= x < num_cols ==> #[trigger] before[x]@ == column_spec(rv, x, r as int),
            decreases items.len() - writer_index,
        {
            let ghost old_cols = columns@;
            let mut column: Vec<u8> = Vec::new();
            std::mem::swap(&mut columns[writer_index], &mut column);
            if !is_first_line {
                column.push(NEWLINE);
            }
            append_bytes(&mut column, &items[writer_index]);
            columns.set(writer_index, column);
            proof {
                let x = writer_index as int;
                assert(rv[r as int][x] == items@[x]@);
                assert(columns@[x]@ =~= column_spec(rv, x, r + 1));
                assert forall|y: int| 0 <= y < writer_index + 1 implies #[trigger] columns@[y]@ == column_spec(rv, y, r + 1) by {
                    if y < x {
                        assert(columns@[y] == old_cols[y]);
                    }
                }
                assert forall|y: int| writer_index + 1 <= y < num_cols implies #[trigger] columns@[y] == before[y] by {
                    assert(columns@[y] == old_cols[y]);
                }
            }
            writer_index += 1;
        }
        proof {
            assert forall|x: int| 0 <= x < num_cols implies #[trigger] columns@[x]@ == column_spec(rv, x, r + 1) by {
                if x >= items.len() {
                    assert(columns@[x] == before[x]);
                    assert(!(x < rv[r as int].len()));
                }
            }
        }
        is_first_line = false;
        r += 1;
    }
    columns
}


/// The three-byte UTF-8 encodings of the white-space characters U+1680,
/// U+2000 to U+200A, U+2028, U+2029, U+202F, U+205F and U+3000.
pub open spec fn is_wide_space(a: u8, b: u8, c: u8) -> bool {
    ||| a == 0xE1 && b == 0x9A && c == 0x80
    ||| a == 0xE2 && b == 0x80 && ((0x80 <= c && c <= 0x8A) || c == 0xA8 || c == 0xA9 || c == 0xAF)
    ||| a == 0xE2 && b == 0x81 && c == 0x9F
    ||| a == 0xE3 && b == 0x80 && c == 0x80
}

/// The length of the UTF-8 encoding of a white-space character (Unicode
/// `White_Space`) at the start of `t`, or 0 when `t` does not start with one.
pub open spec fn space_prefix_len(t: Seq<u8>) -> int {
    if t.len() >= 1 && ((9 <= t[0] && t[0] <= 13) || t[0] == 32) {
        1
    } else if t.len() >= 2 && t[0] == 0xC2 && (t[1] == 0x85 || t[1] == 0xA0) {
        2
    } else if t.len() >= 3 && is_wide_space(t[0], t[1], t[2]) {
        3
    } else {
        0
    }
}

/// The length of the UTF-8 encoding of a white-space character at the end
/// of `t`, or 0 when `t` does not end with one.
pub open spec fn space_suffix_len(t: Seq<u8>) -> int {
    let n = t.len() as int;
    if n >= 1 && ((9 <= t[n - 1] && t[n - 1] <= 13) || t[n - 1] == 32) {
        1
    } else if n >= 2 && t[n - 2] == 0xC2 && (t[n - 1] == 0x85 || t[n - 1] == 0xA0) {
        2
    } else if n >= 3 && is_wide_space(t[n - 3], t[n - 2], t[n - 1]) {
        3
    } else {
        0
    }
}

/// `t` without its leading white-space characters.
pub open spec fn trim_start_spec(t: Seq<u8>) -> Seq<u8>
    decreases t.len(),
{
    if space_prefix_len(t) > 0 {
        trim_start_spec(t.subrange(space_prefix_len(t), t.len() as int))
    } else {
        t
    }
}

/// `t` without its trailing white-space characters.
pub open spec fn trim_end_spec(t: Seq<u8>) -> Seq<u8>
    decreases t.len(),
{
    if space_suffix_len(t) > 0 {
        trim_end_spec(t.subrange(0, t.len() - space_suffix_len(t)))
    } else {
        t
    }
}

/// `t` without leading and trailing white space: on the UTF-8 bytes of a
/// text, the bytes of what `str::trim` gives.
pub open spec fn trim_spec(t: Seq<u8>) -> Seq<u8> {
    trim_end_spec(trim_start_spec(t))
}

/// Trimming the start of `t` drops a prefix of it made of white-space bytes
/// (ASCII white space, or bytes of a multi-byte character), after which no
/// white-space character starts what is left.
proof fn lemma_trim_start_cut(t: Seq<u8>) -> (a: int)
    ensures
        0 <= a <= t.len(),
        trim_start_spec(t) == t.subrange(a, t.len() as int),
        space_prefix_len(t.subrange(a, t.len() as int)) == 0,
        forall|i: int| 0 <= i < a ==> (9 <= #[trigger] t[i] && t[i] <= 13) || t[i] == 32 || t[i] >= 0x80,
    decreases t.len(),
{
    let k = space_prefix_len(t);
    if k > 0 {
        let u = t.subrange(k, t.len() as int);
        let a1 = lemma_trim_start_cut(u);
        assert(u.subrange(a1, u.len() as int) =~= t.subrange(k + a1, t.len() as int));
        assert forall|i: int| 0 <= i < k + a1 implies (9 <= #[trigger] t[i] && t[i] <= 13) || t[i] == 32 || t[i] >= 0x80 by {
            if i >= k {
                assert(t[i] == u[i - k]);
            }
        }
        k + a1
    } else {
        assert(t.subrange(0, t.len() as int) =~= t);
        0
    }
}

/// Trimming the end of `t` drops a suffix of it made of white-space bytes,
/// after which no white-space character ends what is left.
proof fn lemma_trim_end_cut(t: Seq<u8>) -> (e: int)
    ensures
        0 <= e <= t.len(),
        trim_end_spec(t) == t.subrange(0, e),
        space_suffix_len(t.subrange(0, e)) == 0,
        forall|i: int| e <= i < t.len() ==> (9 <= #[trigger] t[i] && t[i] <= 13) || t[i] == 32 || t[i] >= 0x80,
    decreases t.len(),
{
    let k = space_suffix_len(t);
    if k > 0 {
        let u = t.subrange(0, t.len() - k);
        let e1 = lemma_trim_end_cut(u);
        assert(u.subrange(0, e1) =~= t.subrange(0, e1));
        assert forall|i: int| e1 <= i < t.len() implies (9 <= #[trigger] t[i] && t[i] <= 13) || t[i] == 32 || t[i] >= 0x80 by {
            if i < t.len() - k {
                assert(t[i] == u[i]);
            }
        }
        e1
    } else {
        assert(t.subrange(0, t.len() as int) =~= t);
        t.len() as int
    }
}

/// Trimming keeps the middle part `t[cut.0..cut.1]` of a field: everything
/// cut off at either end is white space (ASCII white space, or bytes of a
/// multi-byte character), and what is kept neither starts nor ends with a
/// white-space character (tab, line feed, vertical tab, form feed, carriage
/// return, space, U+0085, U+00A0 or a three-byte one). On ASCII text this
/// fixes the result: it runs from the first to the last byte that is not
/// white space.
pub proof fn law_trim_keeps_middle_without_space_ends(t: Seq<u8>) -> (cut: (int, int))
    ensures
        0 <= cut.0 <= cut.1 <= t.len(),
        trim_spec(t) == t.subrange(cut.0, cut.1),
        forall|i: int| (0 <= i < cut.0 || cut.1 <= i < t.len()) ==>
            (9 <= #[trigger] t[i] && t[i] <= 13) || t[i] == 32 || t[i] >= 0x80,
        trim_spec(t).len() >= 1 ==> {
            let r = trim_spec(t);
            let n = r.len() as int;
            &&& !((9 <= r[0] && r[0] <= 13) || r[0] == 32)
            &&& !((9 <= r[n - 1] && r[n - 1] <= 13) || r[n - 1] == 32)
        },
        trim_spec(t).len() >= 2 ==> {
            let r = trim_spec(t);
            let n = r.len() as int;
            &&& !(r[0] == 0xC2 && (r[1] == 0x85 || r[1] == 0xA0))
            &&& !(r[n - 2] == 0xC2 && (r[n - 1] == 0x85 || r[n - 1] == 0xA0))
        },
        trim_spec(t).len() >= 3 ==> {
            let r = trim_spec(t);
            let n = r.len() as int;
            &&& !is_wide_space(r[0], r[1], r[2])
            &&& !is_wide_space(r[n - 3], r[n - 2], r[n - 1])
        },
{
    let a = lemma_trim_start_cut(t);
    let u = t.subrange(a, t.len() as int);
    let e = lemma_trim_end_cut(u);
    let r = u.subrange(0, e);
    assert(r =~= t.subrange(a, a + e));
    assert(trim_spec(t) == r);
    assert forall|i: int| (0 <= i < a || a + e <= i < t.len()) implies
        (9 <= #[trigger] t[i] && t[i] <= 13) || t[i] == 32 || t[i] >= 0x80 by {
        if i >= a + e {
            assert(t[i] == u[i - a]);
        }
    }
    if r.len() >= 1 {
        assert(r[0] == u[0]);
    }
    if r.len() >= 2 {
        assert(r[1] == u[1]);
    }
    if r.len() >= 3 {
        assert(r[2] == u[2]);
    }
    (a, a + e)
}

/// `space_prefix_len` of `t[start..end]`.
fn space_prefix_at(t: &[u8], start: usize, end: usize) -> (r: usize)
    requires
        start <= end <= t.len(),
    ensures
        r == space_prefix_len(t@.subrange(start as int, end as int)),
{
    let n = end - start;
    if n >= 1 && ((9 <= t[start] && t[start] <= 13) || t[start] == 32) {
        1
    } else if n >= 2 && t[start] == 0xC2 && (t[start + 1] == 0x85 || t[start + 1] == 0xA0) {
        2
    } else if n >= 3 && wide_space(t[start], t[start + 1], t[start + 2]) {
        3
    } else {
        0
    }
}

/// `space_suffix_len` of `t[start..end]`.
fn space_suffix_at(t: &[u8], start: usize, end: usize) -> (r: usize)
    requires
        start <= end <= t.len(),
    ensures
        r == space_suffix_len(t@.subrange(start as int, end as int)),
{
    let n = end - start;
    if n >= 1 && ((9 <= t[end - 1] && t[end - 1] <= 13) || t[end - 1] == 32) {
        1
    } else if n >= 2 && t[end - 2] == 0xC2 && (t[end - 1] == 0x85 || t[end - 1] == 0xA0) {
        2
    } else if n >= 3 && wide_space(t[end - 3], t[end - 2], t[end - 1]) {
        3
    } else {
        0
    }
}

/// `is_wide_space`, computed.
fn wide_space(a: u8, b: u8, c: u8) -> (r: bool)
    ensures
        r == is_wide_space(a, b, c),
{
    (a == 0xE1 && b == 0x9A && c == 0x80) || (a == 0xE2 && b == 0x80 && ((0x80 <= c && c <= 0x8A) || c == 0xA8
        || c == 0xA9 || c == 0xAF)) || (a == 0xE2 && b == 0x81 && c == 0x9F) || (a == 0xE3 && b == 0x80 && c
        == 0x80)
}

/// A field without its leading and trailing white space (Unicode
/// `White_Space` characters, read as UTF-8).
pub fn trim_field(field: &[u8]) -> (trimmed: Vec<u8>)
    ensures
        trimmed@ == trim_spec(field@),
{
    let len = field.len();
    let mut start: usize = 0;
    proof {
        assert(field@.subrange(0, len as int) =~= field@);
    }
    loop
        invariant
            start <= len,
            len == field.len(),
            trim_start_spec(field@) == trim_start_spec(field@.subrange(start as int, len as int)),
        ensures
            start <= len,
            trim_start_spec(field@) == field@.subrange(start as int, len as int),
        decreases len - start,
    {
        let n = space_prefix_at(field, start, len);
        if n == 0 {
            break;
        }
        proof {
            let u = field@.subrange(start as int, len as int);
            assert(u.subrange(n as int, u.len() as int) =~= field@.subrange(start + n, len as int));
        }
        start = start + n;
    }
    let mut end: usize = len;
    proof {
        assert(field@.subrange(start as int, len as int) =~= field@.subrange(start as int, end as int));
    }
    loop
        invariant
            start <= end <= len,
            len == field.len(),
            trim_spec(field@) == trim_end_spec(field@.subrange(start as int, end as int)),
        ensures
            start <= end <= len,
            trim_spec(field@) == field@.subrange(start as int, end as int),
        decreases end - start,
    {
        let n = space_suffix_at(field, start, end);
        if n == 0 {
            break;
        }
        proof {
            let u = field@.subrange(start as int, end as int);
            assert(u.subrange(0, u.len() - n) =~= field@.subrange(start as int, end - n));
        }
        end = end - n;
    }
    let mut out: Vec<u8> = Vec::new();
    let mut i: usize = start;
    while i < end
        invariant
            start <= i <= end <= len,
            len == field.len(),
            out@ == field@.subrange(start as int, i as int),
        decreases end - i,
    {
        out.push(field[i]);
        proof {
            assert(field@.subrange(start as int, i + 1) =~= field@.subrange(start as int, i as int).push(field@[i as int]));
        }
        i += 1;
    }
    out
}

/// The fields of each line, split at separators and trimmed.
pub open spec fn trimmed_rows(lines: Seq<Vec<u8>>) -> Seq<Seq<Seq<u8>>> {
    Seq::new(
        lines.len(),
        |r: int| Seq::new(split_spec(lines[r]@).len(), |f: int| trim_spec(split_spec(lines[r]@)[f])),
    )
}

/// The column stores of comma-separated lines: every line is split at the
/// separators, each field is trimmed, and field `w` of every line goes to
/// column `w`, preceded by a line separator in every line but the first.
/// No line may have more fields than there are columns.
pub fn column_stores(lines: &Vec<Vec<u8>>, num_cols: usize) -> (columns: Vec<Vec<u8>>)
    requires
        forall|r: int| 0 <= r < lines.len() ==> #[trigger] split_spec(lines@[r]@).len() <= num_cols,
    ensures
        columns.len() == num_cols,
        forall|w: int| 0 <= w < num_cols ==> #[trigger] columns@[w]@ == column_spec(trimmed_rows(lines@), w, lines.len() as int),
        forall|w: int| 0 <= w < num_cols ==> #[trigger] columns@[w]@ == Seq::new(
            lines.len() as nat,
            |r: int|
                if w < split_spec(lines@[r]@).len() {
                    (if r > 0 { seq![NEWLINE] } else { Seq::<u8>::empty() }) + trim_spec(split_spec(lines@[r]@)[w])
                } else {
                    Seq::<u8>::empty()
                },
        ).flatten(),
{
    let mut rows: Vec<Vec<Vec<u8>>> = Vec::new();
    let mut r: usize = 0;
    while r < lines.len()
        invariant
            r <= lines.len(),
            rows.len() == r,
            forall|x: int| 0 <= x < r ==> #[trigger] rows_view(rows@)[x] == trimmed_rows(lines@)[x],
            forall|x: int| 0 <= x < lines.len() ==> #[trigger] split_spec(lines@[x]@).len() <= num_cols,
        decreases lines.len() - r,
    {
        let fields = split_fields(&lines[r]);
        let mut trimmed: Vec<Vec<u8>> = Vec::new();
        let mut f: usize = 0;
        while f < fields.len()
            invariant
                f <= fields.len(),
                trimmed.len() == f,
                fields@.len() == split_spec(lines@[r as int]@).len(),
                forall|x: int| 0 <= x < fields@.len() ==> #[trigger] fields@[x]@ == split_spec(lines@[r as int]@)[x],
                forall|x: int| 0 <= x < f ==> #[trigger] trimmed@[x]@ == trim_spec(split_spec(lines@[r as int]@)[x]),
            decreases fields.len() - f,
        {
            let t = trim_field(&fields[f]);
            trimmed.push(t);
            f += 1;
        }
        let ghost before = rows@;
        rows.push(trimmed);
        proof {
            assert forall|x: int| 0 <= x < r + 1 implies #[trigger] rows_view(rows@)[x] == trimmed_rows(lines@)[x] by {
                if x < r {
                    assert(rows@[x] == before[x]);
                    assert(rows_view(rows@)[x] == rows_view(before)[x]);
                } else {
                    assert(rows_view(rows@)[x] =~= trimmed_rows(lines@)[x]);
                }
            }
        }
        r += 1;
    }
    proof {
        assert(rows_view(rows@) =~= trimmed_rows(lines@));
        assert forall|x: int| 0 <= x < rows.len() implies #[trigger] rows@[x].len() <= num_cols by {
            assert(rows_view(rows@)[x].len() == rows@[x]@.len());
        }
    }
    let columns = route_fields(&rows, num_cols);
    proof {
        let tr = trimmed_rows(lines@);
        assert forall|w: int| 0 <= w < num_cols implies #[trigger] columns@[w]@ == Seq::new(
            lines.len() as nat,
            |r: int|
                if w < split_spec(lines@[r]@).len() {
                    (if r > 0 { seq![NEWLINE] } else { Seq::<u8>::empty() }) + trim_spec(split_spec(lines@[r]@)[w])
                } else {
                    Seq::<u8>::empty()
                },
        ).flatten() by {
            law_column_lays_fields_end_to_end(tr, w, lines.len() as int);
            assert(Seq::new(
                lines.len() as nat,
                |r: int|
                    if w < tr[r].len() {
                        (if r > 0 { seq![NEWLINE] } else { Seq::<u8>::empty() }) + tr[r][w]
                    } else {
                        Seq::<u8>::empty()
                    },
            ) =~= Seq::new(
                lines.len() as nat,
                |r: int|
                    if w < split_spec(lines@[r]@).len() {
                        (if r > 0 { seq![NEWLINE] } else { Seq::<u8>::empty() }) + trim_spec(split_spec(lines@[r]@)[w])
                    } else {
                        Seq::<u8>::empty()
                    },
            ));
        }
    }
    columns
}

} // verus!

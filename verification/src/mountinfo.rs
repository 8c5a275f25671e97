//! Which mounts lie beneath a root, and which filesystems a root may not be on.

use vstd::prelude::*;
use vstd::utf8::encode_utf8;

use crate::path::{copy_range, lies_under, strictly_under, views};

verus! {

/// Whether a filesystem of this type (`f_type`) reports only what happens on
/// this machine: NFS, SMB, SMB2, CIFS, FUSE, 9P, AFS, CODA, CEPH and NCP.
pub open spec fn is_remote(f_type: i64) -> bool {
    ||| f_type == 0x6969
    ||| f_type == 0x517B
    ||| f_type == 0xFE53_4D42
    ||| f_type == 0xFF53_4D42
    ||| f_type == 0x6573_5546
    ||| f_type == 0x0102_1997
    ||| f_type == 0x5346_414F
    ||| f_type == 0x7375_7245
    ||| f_type == 0x00C3_6400
    ||| f_type == 0x564C
}

/// Whether a root on a filesystem of this type must be refused.
pub fn fs_type_is_remote(f_type: i64) -> (r: bool)
    ensures
        r == is_remote(f_type),
{
    let magics: [i64; 10] = [
        0x6969,
        0x517B,
        0xFE53_4D42,
        0xFF53_4D42,
        0x6573_5546,
        0x0102_1997,
        0x5346_414F,
        0x7375_7245,
        0x00C3_6400,
        0x564C,
    ];
    let mut i: usize = 0;
    while i < 10
        invariant
            i <= 10,
            magics@ == seq![
                0x6969i64,
                0x517B,
                0xFE53_4D42,
                0xFF53_4D42,
                0x6573_5546,
                0x0102_1997,
                0x5346_414F,
                0x7375_7245,
                0x00C3_6400,
                0x564C,
            ],
            forall|j: int| 0 <= j < i ==> magics@[j] != f_type,
        decreases 10 - i,
    {
        if magics[i] == f_type {
            return true;
        }
        i = i + 1;
    }
    assert(magics@[0] != f_type && magics@[1] != f_type && magics@[2] != f_type && magics@[3]
        != f_type && magics@[4] != f_type && magics@[5] != f_type && magics@[6] != f_type
        && magics@[7] != f_type && magics@[8] != f_type && magics@[9] != f_type);
    false
}

/// The byte that starts an escape.
pub const BACKSLASH: u8 = 92;

/// The digit 0.
pub const ZERO: u8 = 48;

/// The byte that ends a line.
pub const NEWLINE: u8 = 10;

/// Whether the byte is an octal digit.
pub open spec fn is_octal(b: u8) -> bool {
    ZERO <= b <= ZERO + 7
}

/// Whether the field starts with an escape: a backslash and three octal digits.
pub open spec fn has_escape(field: Seq<u8>) -> bool {
    field.len() >= 4 && field[0] == BACKSLASH && is_octal(field[1]) && is_octal(field[2])
        && is_octal(field[3])
}

/// The byte that an escape stands for; of a number past a byte, the low eight
/// bits.
pub open spec fn escaped_byte(field: Seq<u8>) -> u8 {
    (((field[1] - ZERO) * 64 + (field[2] - ZERO) * 8 + (field[3] - ZERO)) % 256) as u8
}

/// The bytes that a field of the mount table stands for.
pub open spec fn unescaped(field: Seq<u8>) -> Seq<u8>
    decreases field.len(),
{
    if field.len() == 0 {
        Seq::empty()
    } else if has_escape(field) {
        seq![escaped_byte(field)] + unescaped(field.skip(4))
    } else {
        seq![field[0]] + unescaped(field.skip(1))
    }
}

/// The bytes that a field of the mount table stands for: the kernel writes
/// space, tab, newline and backslash as escapes.
pub fn unescape_mountinfo(field: &[u8]) -> (r: Vec<u8>)
    ensures
        r@ == unescaped(field@),
{
    let mut out: Vec<u8> = Vec::new();
    let mut at: usize = 0;
    assert(field@.skip(0) =~= field@);
    assert(out@ + unescaped(field@) =~= unescaped(field@));
    while at < field.len()
        invariant
            at <= field@.len(),
            unescaped(field@) == out@ + unescaped(field@.skip(at as int)),
        decreases field@.len() - at,
    {
        let ghost rest = field@.skip(at as int);
        let ghost before = out@;
        if field[at] == BACKSLASH && field.len() - at > 3 && octal(field[at + 1]) && octal(
            field[at + 2],
        ) && octal(field[at + 3]) {
            let d1: u32 = (field[at + 1] - ZERO) as u32;
            let d2: u32 = (field[at + 2] - ZERO) as u32;
            let d3: u32 = (field[at + 3] - ZERO) as u32;
            let value: u8 = ((d1 * 64 + d2 * 8 + d3) % 256) as u8;
            assert(has_escape(rest));
            assert(value == escaped_byte(rest));
            out.push(value);
            at = at + 4;
            assert(rest.skip(4) =~= field@.skip(at as int));
            assert(before + (seq![value] + unescaped(rest.skip(4))) =~= out@ + unescaped(
                rest.skip(4),
            ));
        } else {
            assert(!has_escape(rest));
            out.push(field[at]);
            at = at + 1;
            assert(rest.skip(1) =~= field@.skip(at as int));
            assert(before + (seq![rest[0]] + unescaped(rest.skip(1))) =~= out@ + unescaped(
                rest.skip(1),
            ));
        }
    }
    assert(out@ + Seq::<u8>::empty() =~= out@);
    out
}

/// Whether the byte is an octal digit.
fn octal(b: u8) -> (r: bool)
    ensures
        r == is_octal(b),
{
    ZERO <= b && b <= ZERO + 7
}

/// How many bytes of white space the text starts with, one character of it.
pub open spec fn space_len(text: Seq<u8>) -> int {
    if text.len() >= 1 && (9 <= text[0] <= 13 || text[0] == 32) {
        1
    } else if text.len() >= 2 && text[0] == 0xC2 && (text[1] == 0x85 || text[1] == 0xA0) {
        2
    } else if text.len() >= 3 && is_wide_space(text[0], text[1], text[2]) {
        3
    } else {
        0
    }
}

/// Whether the three bytes encode a character of white space: U+1680, U+2000 to
/// U+200A, U+2028, U+2029, U+202F, U+205F or U+3000.
pub open spec fn is_wide_space(a: u8, b: u8, c: u8) -> bool {
    ||| a == 0xE1 && b == 0x9A && c == 0x80
    ||| a == 0xE2 && b == 0x80 && (0x80 <= c <= 0x8A || c == 0xA8 || c == 0xA9 || c == 0xAF)
    ||| a == 0xE2 && b == 0x81 && c == 0x9F
    ||| a == 0xE3 && b == 0x80 && c == 0x80
}

/// The text without the white space it starts with.
pub open spec fn skip_space(text: Seq<u8>) -> Seq<u8>
    decreases text.len(),
{
    if space_len(text) == 0 {
        text
    } else {
        skip_space(text.skip(space_len(text)))
    }
}

/// How many bytes come ahead of the first white space.
pub open spec fn field_len(text: Seq<u8>) -> int
    decreases text.len(),
{
    if text.len() == 0 || space_len(text) > 0 {
        0
    } else {
        1 + field_len(text.skip(1))
    }
}

/// The field with `n` fields ahead of it.
pub open spec fn nth_field(line: Seq<u8>, n: nat) -> Option<Seq<u8>>
    decreases n,
{
    let text = skip_space(line);
    if text.len() == 0 {
        None
    } else if n == 0 {
        Some(text.take(field_len(text)))
    } else {
        nth_field(text.skip(field_len(text)), (n - 1) as nat)
    }
}

/// How many bytes come ahead of the first end of a line.
pub open spec fn line_len(text: Seq<u8>) -> int
    decreases text.len(),
{
    if text.len() == 0 || text[0] == NEWLINE {
        0
    } else {
        1 + line_len(text.skip(1))
    }
}

/// The mount point that a line of the mount table names: its fifth field. It
/// counts if it lies beneath `root`.
pub open spec fn point_of(line: Seq<u8>, root: Seq<u8>) -> Seq<Seq<u8>> {
    match nth_field(line, 4) {
        Some(field) => if strictly_under(unescaped(field), root) {
            seq![unescaped(field)]
        } else {
            Seq::empty()
        },
        None => Seq::empty(),
    }
}

/// The mount points beneath `root`, in the order of the table.
pub open spec fn mount_points(content: Seq<u8>, root: Seq<u8>) -> Seq<Seq<u8>>
    decreases content.len(),
    via mount_points_decreases
{
    if content.len() == 0 {
        Seq::empty()
    } else {
        let n = line_len(content);
        let rest = if n < content.len() {
            content.skip(n + 1)
        } else {
            Seq::empty()
        };
        point_of(content.take(n), root) + mount_points(rest, root)
    }
}

#[via_fn]
proof fn mount_points_decreases(content: Seq<u8>, root: Seq<u8>) {
    lemma_line_len(content);
}

proof fn lemma_line_len(text: Seq<u8>)
    ensures
        0 <= line_len(text) <= text.len(),
    decreases text.len(),
{
    if text.len() > 0 && text[0] != NEWLINE {
        lemma_line_len(text.skip(1));
    }
}

/// How many bytes of white space the text starts with at `at`, ahead of `end`.
fn space_at(text: &[u8], at: usize, end: usize) -> (r: usize)
    requires
        at <= end <= text@.len(),
    ensures
        r == space_len(text@.subrange(at as int, end as int)),
        at + r <= end,
{
    let left: usize = end - at;
    if left >= 1 && ((9 <= text[at] && text[at] <= 13) || text[at] == 32) {
        1
    } else if left >= 2 && text[at] == 0xC2 && (text[at + 1] == 0x85 || text[at + 1] == 0xA0) {
        2
    } else if left >= 3 && wide_space(text[at], text[at + 1], text[at + 2]) {
        3
    } else {
        0
    }
}

/// Whether the three bytes encode a character of white space.
fn wide_space(a: u8, b: u8, c: u8) -> (r: bool)
    ensures
        r == is_wide_space(a, b, c),
{
    (a == 0xE1 && b == 0x9A && c == 0x80) || (a == 0xE2 && b == 0x80 && ((0x80 <= c && c <= 0x8A)
        || c == 0xA8 || c == 0xA9 || c == 0xAF)) || (a == 0xE2 && b == 0x81 && c == 0x9F) || (a
        == 0xE3 && b == 0x80 && c == 0x80)
}

/// Copies out the field with `n` fields ahead of it, of the line
/// `text[from..end]`.
fn read_field(text: &[u8], from: usize, end: usize, n: usize) -> (r: Option<Vec<u8>>)
    requires
        from <= end <= text@.len(),
    ensures
        match r {
            Some(field) => nth_field(text@.subrange(from as int, end as int), n as nat) == Some(
                field@,
            ),
            None => nth_field(text@.subrange(from as int, end as int), n as nat) is None,
        },
{
    let mut at: usize = from;
    let mut left: usize = n;
    loop
        invariant
            from <= at <= end <= text@.len(),
            nth_field(text@.subrange(from as int, end as int), n as nat) == nth_field(
                text@.subrange(at as int, end as int),
                left as nat,
            ),
        decreases left,
    {
        let ghost line = text@.subrange(at as int, end as int);
        let mut space: usize = space_at(text, at, end);
        while space > 0
            invariant
                from <= at <= end <= text@.len(),
                at + space <= end,
                space == space_len(text@.subrange(at as int, end as int)),
                skip_space(line) == skip_space(text@.subrange(at as int, end as int)),
            decreases end - at,
        {
            assert(text@.subrange(at as int, end as int).skip(space as int) =~= text@.subrange(
                at + space,
                end as int,
            ));
            at = at + space;
            space = space_at(text, at, end);
        }
        let ghost body = text@.subrange(at as int, end as int);
        assert(skip_space(line) == body);
        if at == end {
            return None;
        }
        let start: usize = at;
        assert(body.skip(0) =~= body);
        while at < end && space_at(text, at, end) == 0
            invariant
                from <= start <= at <= end <= text@.len(),
                field_len(body) == at - start + field_len(text@.subrange(at as int, end as int)),
            decreases end - at,
        {
            assert(text@.subrange(at as int, end as int).skip(1) =~= text@.subrange(
                at + 1,
                end as int,
            ));
            at = at + 1;
        }
        assert(field_len(text@.subrange(at as int, end as int)) == 0);
        if left == 0 {
            assert(body.take(at - start) =~= text@.subrange(start as int, at as int));
            return Some(copy_range(text, start, at));
        }
        assert(body.skip(at - start) =~= text@.subrange(at as int, end as int));
        left = left - 1;
    }
}

/// The mount points strictly beneath `root`, from the text of the mount table.
/// A line without a fifth field is passed over.
pub fn parse_mountinfo(content: &str, root: &[u8]) -> (r: Vec<Vec<u8>>)
    ensures
        views(r@) == mount_points(encode_utf8(content@), root@),
{
    let text = content.as_bytes();
    let mut out: Vec<Vec<u8>> = Vec::new();
    let mut at: usize = 0;
    assert(text@.skip(0) =~= text@);
    assert(views(out@) + mount_points(text@, root@) =~= mount_points(text@, root@));
    while at < text.len()
        invariant
            at <= text@.len(),
            mount_points(text@, root@) == views(out@) + mount_points(
                text@.skip(at as int),
                root@,
            ),
        decreases text@.len() - at,
    {
        let ghost rest = text@.skip(at as int);
        let start: usize = at;
        while at < text.len() && text[at] != NEWLINE
            invariant
                start <= at <= text@.len(),
                line_len(text@.skip(start as int)) == at - start + line_len(
                    text@.skip(at as int),
                ),
            decreases text@.len() - at,
        {
            assert(text@.skip(at as int).skip(1) =~= text@.skip(at + 1));
            at = at + 1;
        }
        let end: usize = at;
        let ghost line = rest.take(end - start);
        assert(line =~= text@.subrange(start as int, end as int));
        assert(line_len(rest) == end - start);
        if at < text.len() {
            at = at + 1;
            assert(rest.skip(end - start + 1) =~= text@.skip(at as int));
        } else {
            assert(text@.skip(at as int) =~= Seq::empty());
        }
        let ghost before = views(out@);
        match read_field(text, start, end, 4) {
            Some(field) => {
                let point = unescape_mountinfo(field.as_slice());
                if lies_under(point.as_slice(), root) {
                    let ghost found = point@;
                    out.push(point);
                    assert(views(out@) =~= before + seq![found]);
                }
            },
            None => {},
        }
        assert(views(out@) =~= before + point_of(line, root@));
        assert(before + (point_of(line, root@) + mount_points(text@.skip(at as int), root@))
            =~= views(out@) + mount_points(text@.skip(at as int), root@));
    }
    assert(text@.skip(at as int) =~= Seq::empty());
    assert(views(out@) + Seq::<Seq<u8>>::empty() =~= views(out@));
    out
}

/// A byte as the kernel writes it into a field of the mount table.
pub open spec fn escape(b: u8) -> Seq<u8> {
    if b == 32 || b == 9 || b == NEWLINE || b == BACKSLASH {
        seq![
            BACKSLASH,
            (ZERO + b / 64) as u8,
            (ZERO + b / 8 % 8) as u8,
            (ZERO + b % 8) as u8,
        ]
    } else {
        seq![b]
    }
}

/// A path as the kernel writes it into a field of the mount table.
pub open spec fn escaped(path: Seq<u8>) -> Seq<u8>
    decreases path.len(),
{
    if path.len() == 0 {
        Seq::empty()
    } else {
        escape(path[0]) + escaped(path.skip(1))
    }
}

/// A path reads back from its field of the mount table as it was.
pub proof fn law_a_field_reads_back(path: Seq<u8>)
    ensures
        unescaped(escaped(path)) == path,
    decreases path.len(),
{
    if path.len() > 0 {
        law_a_field_reads_back(path.skip(1));
        let head = escape(path[0]);
        let rest = escaped(path.skip(1));
        let field = head + rest;
        if head.len() == 4 {
            assert(field.skip(4) =~= rest);
            assert(has_escape(field));
            assert(escaped_byte(field) == path[0]);
        } else {
            assert(field.skip(1) =~= rest);
            assert(!has_escape(field));
        }
        assert(seq![path[0]] + path.skip(1) =~= path);
    } else {
        assert(unescaped(escaped(path)) =~= path);
    }
}

/// Every mount point that is found lies beneath the root and is not the root.
pub proof fn law_mount_points_lie_beneath_the_root(content: Seq<u8>, root: Seq<u8>, i: int)
    requires
        0 <= i < mount_points(content, root).len(),
    ensures
        strictly_under(mount_points(content, root)[i], root),
    decreases content.len(),
{
    lemma_line_len(content);
    let n = line_len(content);
    let here = point_of(content.take(n), root);
    let rest = if n < content.len() {
        content.skip(n + 1)
    } else {
        Seq::empty()
    };
    if i >= here.len() {
        law_mount_points_lie_beneath_the_root(rest, root, i - here.len());
    }
}

/// A line of the mount table.
pub enum Line {
    /// A mount: four fields, the mount point, and what comes behind it.
    Mount(Seq<Seq<u8>>, Seq<u8>, Seq<Seq<u8>>),
    /// A line with too few fields to name a mount point.
    Short(Seq<Seq<u8>>),
}

/// The fields of a line, as the kernel writes them.
pub open spec fn fields_of(line: Line) -> Seq<Seq<u8>> {
    match line {
        Line::Mount(ahead, point, behind) => ahead.push(escaped(point)) + behind,
        Line::Short(fields) => fields,
    }
}

/// Fields with a space between any two of them.
pub open spec fn spaced(fields: Seq<Seq<u8>>) -> Seq<u8>
    decreases fields.len(),
{
    if fields.len() == 0 {
        Seq::empty()
    } else if fields.len() == 1 {
        fields[0]
    } else {
        fields[0] + seq![32u8] + spaced(fields.drop_first())
    }
}

/// The text of a mount table with these lines.
pub open spec fn table_of(lines: Seq<Line>) -> Seq<u8>
    decreases lines.len(),
{
    if lines.len() == 0 {
        Seq::empty()
    } else {
        spaced(fields_of(lines.first())) + seq![10u8] + table_of(lines.drop_first())
    }
}

/// Whether these can be fields: there is something in each, and no white space.
pub open spec fn are_fields(fields: Seq<Seq<u8>>) -> bool {
    forall|i: int| 0 <= i < fields.len() ==> is_field(#[trigger] fields[i])
}

/// Whether this can be a field: there is something in it, and no white space.
pub open spec fn is_field(field: Seq<u8>) -> bool {
    field.len() > 0 && forall|j: int|
        0 <= j < field.len() ==> space_len(#[trigger] field.skip(j)) == 0
}

/// Whether the kernel can write the line.
pub open spec fn is_line(line: Line) -> bool {
    are_fields(fields_of(line)) && match line {
        Line::Mount(ahead, _, _) => ahead.len() == 4,
        Line::Short(fields) => fields.len() < 5,
    }
}

/// The mount points of the lines that lie beneath the root and are not the root, in order.
pub open spec fn points_beneath(lines: Seq<Line>, root: Seq<u8>) -> Seq<Seq<u8>>
    decreases lines.len(),
{
    if lines.len() == 0 {
        Seq::empty()
    } else {
        let later = points_beneath(lines.drop_first(), root);
        match lines.first() {
            Line::Mount(_, point, _) if strictly_under(point, root) => seq![point] + later,
            _ => later,
        }
    }
}

proof fn lemma_no_space_in_a_field(field: Seq<u8>, rest: Seq<u8>, j: int)
    requires
        is_field(field),
        0 <= j < field.len(),
        rest.len() > 0 ==> rest[0] == 32,
    ensures
        space_len((field + rest).skip(j)) == 0,
{
    let f = field.skip(j);
    let t = (field + rest).skip(j);
    assert(space_len(field.skip(j)) == 0);
    assert(t =~= f + rest);
    assert(t[0] == f[0]);
    if f.len() > 1 {
        assert(t[1] == f[1]);
    } else if t.len() > 1 {
        assert(t[1] == rest[0]);
    }
    if f.len() > 2 {
        assert(t[2] == f[2]);
    } else if f.len() == 2 && t.len() > 2 {
        assert(t[2] == rest[0]);
    }
}

proof fn lemma_field_ends_at_a_space(field: Seq<u8>, rest: Seq<u8>, j: int)
    requires
        is_field(field),
        0 <= j <= field.len(),
        rest.len() > 0 ==> rest[0] == 32,
    ensures
        field_len((field + rest).skip(j)) == field.len() - j,
    decreases field.len() - j,
{
    let t = (field + rest).skip(j);
    if j < field.len() {
        lemma_no_space_in_a_field(field, rest, j);
        assert(t.skip(1) =~= (field + rest).skip(j + 1));
        lemma_field_ends_at_a_space(field, rest, j + 1);
    } else if t.len() > 0 {
        assert(t[0] == rest[0]);
        assert(space_len(t) == 1);
    }
}

/// A field reads back from its line.
proof fn lemma_fields_read_back(fields: Seq<Seq<u8>>, n: nat)
    requires
        are_fields(fields),
    ensures
        nth_field(spaced(fields), n) == if n < fields.len() {
            Some(fields[n as int])
        } else {
            None
        },
    decreases fields.len(),
{
    let line = spaced(fields);
    if fields.len() == 0 {
        assert(skip_space(line) == line);
    } else {
        let first = fields[0];
        let later = fields.drop_first();
        let rest = if fields.len() == 1 {
            Seq::empty()
        } else {
            seq![32u8] + spaced(later)
        };
        assert(is_field(first));
        assert(line =~= first + rest);
        lemma_no_space_in_a_field(first, rest, 0);
        lemma_field_ends_at_a_space(first, rest, 0);
        assert(line.skip(0) =~= line);
        assert(skip_space(line) == line);
        assert(line.take(first.len() as int) =~= first);
        assert(line.skip(first.len() as int) =~= rest);
        if n > 0 {
            let m = (n - 1) as nat;
            assert(nth_field(line, n) == nth_field(rest, m));
            if fields.len() == 1 {
                assert(skip_space(rest) == rest);
            } else {
                assert forall|i: int| 0 <= i < later.len() implies is_field(
                    #[trigger] later[i],
                ) by {
                    assert(later[i] == fields[i + 1]);
                }
                lemma_fields_read_back(later, m);
                assert(space_len(rest) == 1);
                assert(rest.skip(1) =~= spaced(later));
                assert(skip_space(rest) == skip_space(spaced(later)));
                assert(nth_field(rest, m) == nth_field(spaced(later), m));
            }
        }
    }
}

proof fn lemma_no_newline_in_a_line(fields: Seq<Seq<u8>>)
    requires
        are_fields(fields),
    ensures
        forall|j: int| 0 <= j < spaced(fields).len() ==> #[trigger] spaced(fields)[j] != 10,
    decreases fields.len(),
{
    if fields.len() > 0 {
        let first = fields[0];
        let later = fields.drop_first();
        assert(is_field(first));
        assert forall|j: int| 0 <= j < first.len() implies #[trigger] first[j] != 10 by {
            assert(space_len(first.skip(j)) == 0);
            assert(first.skip(j)[0] == first[j]);
        }
        if fields.len() > 1 {
            assert forall|i: int| 0 <= i < later.len() implies is_field(#[trigger] later[i]) by {
                assert(later[i] == fields[i + 1]);
            }
            lemma_no_newline_in_a_line(later);
            let line = spaced(fields);
            let k = first.len() as int;
            assert forall|j: int| 0 <= j < line.len() implies #[trigger] line[j] != 10 by {
                if j < k {
                    assert(line[j] == first[j]);
                } else if j > k {
                    assert(line[j] == spaced(later)[j - k - 1]);
                }
            }
        }
    }
}

proof fn lemma_line_ends_at_a_newline(line: Seq<u8>, rest: Seq<u8>)
    requires
        forall|j: int| 0 <= j < line.len() ==> #[trigger] line[j] != 10,
        rest.len() > 0,
        rest[0] == 10,
    ensures
        line_len(line + rest) == line.len(),
    decreases line.len(),
{
    let all = line + rest;
    if line.len() > 0 {
        assert(all[0] == line[0]);
        assert(all.skip(1) =~= line.skip(1) + rest);
        assert forall|j: int| 0 <= j < line.skip(1).len() implies #[trigger] line.skip(1)[j]
            != 10 by {
            assert(line.skip(1)[j] == line[j + 1]);
        }
        lemma_line_ends_at_a_newline(line.skip(1), rest);
    } else {
        assert(all[0] == 10);
    }
}

/// Every mount beneath the root is found, and no other: of a mount table as the kernel
/// writes it, what is read is, in the order of the lines, each mount point that lies beneath
/// the root and is not the root, whatever bytes are in its name. Lines that are too short
/// are passed over.
pub proof fn law_every_mount_beneath_the_root_is_found(lines: Seq<Line>, root: Seq<u8>)
    requires
        forall|i: int| 0 <= i < lines.len() ==> is_line(#[trigger] lines[i]),
    ensures
        mount_points(table_of(lines), root) == points_beneath(lines, root),
    decreases lines.len(),
{
    let text = table_of(lines);
    if lines.len() > 0 {
        let first = lines.first();
        let later = lines.drop_first();
        assert(is_line(lines[0]));
        assert forall|i: int| 0 <= i < later.len() implies is_line(#[trigger] later[i]) by {
            assert(later[i] == lines[i + 1]);
        }
        law_every_mount_beneath_the_root_is_found(later, root);
        let fields = fields_of(first);
        let line = spaced(fields);
        let rest = seq![10u8] + table_of(later);
        assert(text =~= line + rest);
        lemma_no_newline_in_a_line(fields);
        lemma_line_ends_at_a_newline(line, rest);
        assert(text.take(line.len() as int) =~= line);
        assert(text.skip(line.len() as int + 1) =~= table_of(later));
        lemma_fields_read_back(fields, 4);
        if let Line::Mount(_, point, _) = first {
            assert(fields[4] == escaped(point));
            law_a_field_reads_back(point);
        }
        assert(mount_points(text, root) == point_of(line, root) + mount_points(
            table_of(later),
            root,
        ));
        assert(mount_points(text, root) =~= points_beneath(lines, root));
    } else {
        assert(mount_points(text, root) =~= Seq::empty());
    }
}

/// The filesystems taken for remote are NFS, SMB, SMB 2, CIFS, FUSE, 9P, AFS, Coda, Ceph and
/// NCP, by the kernel's numbers for them, and no others.
pub proof fn law_only_these_filesystems_are_remote(f_type: i64)
    ensures
        is_remote(f_type) <==> seq![
            0x6969i64,
            0x517B,
            0xFE53_4D42,
            0xFF53_4D42,
            0x6573_5546,
            0x0102_1997,
            0x5346_414F,
            0x7375_7245,
            0x00C3_6400,
            0x564C,
        ].contains(f_type),
{
    let numbers = seq![
        0x6969i64,
        0x517B,
        0xFE53_4D42,
        0xFF53_4D42,
        0x6573_5546,
        0x0102_1997,
        0x5346_414F,
        0x7375_7245,
        0x00C3_6400,
        0x564C,
    ];
    if is_remote(f_type) {
        assert(exists|i: int| 0 <= i < 10 && numbers[i] == f_type) by {
            assert(numbers[0] == 0x6969 && numbers[1] == 0x517B && numbers[2] == 0xFE53_4D42);
            assert(numbers[3] == 0xFF53_4D42 && numbers[4] == 0x6573_5546);
            assert(numbers[5] == 0x0102_1997 && numbers[6] == 0x5346_414F);
            assert(numbers[7] == 0x7375_7245 && numbers[8] == 0x00C3_6400);
            assert(numbers[9] == 0x564C);
        }
    }
}

} // verus!

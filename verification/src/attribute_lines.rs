//! The lines of an attributes file.
//!
//! A line holds a pattern and, after it, the assignments that it makes to the
//! attributes of the paths that the pattern matches. Comments, blank lines and
//! malformed lines are skipped. The crate `gix` does the reading; what stands here
//! says which lines count, and what a line says.
use vstd::prelude::*;

verus! {

/// Whether `byte` separates the pattern of a line from what follows: a space, a
/// tab or a carriage return.
pub open spec fn is_blank(byte: u8) -> bool {
    byte == 0x20 || byte == 0x09 || byte == 0x0d
}

/// `line` from its first byte on that is not blank.
pub open spec fn trim_blanks(line: Seq<u8>) -> Seq<u8>
    decreases line.len(),
{
    if line.len() > 0 && is_blank(line[0]) {
        trim_blanks(line.skip(1))
    } else {
        line
    }
}

/// How many bytes `text` has before its first blank.
pub open spec fn word_len(text: Seq<u8>) -> nat
    decreases text.len(),
{
    if text.len() == 0 || is_blank(text[0]) {
        0
    } else {
        1 + word_len(text.skip(1))
    }
}

/// The byte that a backslash and `byte` stand for in a quoted text, other than by a
/// number.
pub open spec fn escaped(byte: u8) -> Option<u8> {
    if byte == 0x6e {
        Some(0x0au8)
    } else if byte == 0x72 {
        Some(0x0du8)
    } else if byte == 0x74 {
        Some(0x09u8)
    } else if byte == 0x61 {
        Some(0x07u8)
    } else if byte == 0x62 {
        Some(0x08u8)
    } else if byte == 0x76 {
        Some(0x0bu8)
    } else if byte == 0x66 {
        Some(0x0cu8)
    } else if byte == 0x22 || byte == 0x5c {
        Some(byte)
    } else {
        None
    }
}

/// Reads a quoted text on from `text`, where `read` has been read of it in `consumed`
/// bytes: up to the closing quote, or to the end if there is none. A backslash starts
/// an escape, by a letter or by three octal digits. Gives what the quotes hold and how
/// many bytes that took up; `None` where an escape is malformed.
pub open spec fn unquoted_from(text: Seq<u8>, read: Seq<u8>, consumed: nat) -> Option<
    (Seq<u8>, nat),
>
    decreases text.len(),
{
    if text.len() == 0 {
        Some((read, consumed))
    } else if text[0] == 0x22 {
        Some((read, consumed + 1))
    } else if text[0] != 0x5c {
        unquoted_from(text.skip(1), read.push(text[0]), consumed + 1)
    } else if text.len() >= 2 && escaped(text[1]) is Some {
        unquoted_from(text.skip(2), read.push(escaped(text[1])->0), consumed + 2)
    } else if text.len() >= 4 && 0x30 <= text[1] <= 0x33 && 0x30 <= text[2] <= 0x37 && 0x30
        <= text[3] <= 0x37 {
        let byte = 64 * (text[1] - 0x30) + 8 * (text[2] - 0x30) + (text[3] - 0x30);
        unquoted_from(text.skip(4), read.push(byte as u8), consumed + 4)
    } else {
        None
    }
}

/// What the quotes at the start of `text` hold, and how many bytes that takes up;
/// `None` where there is nothing but a quote, or where an escape is malformed.
pub open spec fn unquoted(text: Seq<u8>) -> Option<(Seq<u8>, nat)> {
    if text.len() < 2 {
        None
    } else {
        unquoted_from(text.skip(1), seq![], 1)
    }
}

/// The head of `line`, which is a pattern or the definition of a macro, and what
/// follows it. There is none in a blank line, in a comment, which starts with a
/// number sign, and where the quotes are malformed.
pub open spec fn line_parts(line: Seq<u8>) -> Option<(Seq<u8>, Seq<u8>)> {
    let text = trim_blanks(line);
    if text.len() == 0 || text[0] == 0x23 {
        None
    } else if text[0] == 0x22 {
        match unquoted(text) {
            Some((head, consumed)) => Some((head, text.skip(consumed as int))),
            None => None,
        }
    } else {
        Some((text.take(word_len(text) as int), text.skip(word_len(text) as int)))
    }
}

/// How many bytes at the start of `text` are one white-space character in UTF-8;
/// 0 where it starts with another.
pub open spec fn space_len(text: Seq<u8>) -> nat {
    if text.len() >= 1 && (0x09 <= text[0] <= 0x0d || text[0] == 0x20) {
        1
    } else if text.len() >= 2 && text[0] == 0xc2 && (text[1] == 0x85 || text[1] == 0xa0) {
        2
    } else if text.len() >= 3 && (text[0] == 0xe1 && text[1] == 0x9a && text[2] == 0x80 || text[0]
        == 0xe2 && text[1] == 0x80 && (0x80 <= text[2] <= 0x8a || text[2] == 0xa8 || text[2] == 0xa9
        || text[2] == 0xaf) || text[0] == 0xe2 && text[1] == 0x81 && text[2] == 0x9f || text[0]
        == 0xe3 && text[1] == 0x80 && text[2] == 0x80) {
        3
    } else {
        0
    }
}

/// The runs of bytes in `started + text` that white space separates, where
/// `started` holds no white space.
pub open spec fn fields_from(text: Seq<u8>, started: Seq<u8>) -> Seq<Seq<u8>>
    decreases text.len(),
{
    if text.len() == 0 {
        if started.len() == 0 {
            seq![]
        } else {
            seq![started]
        }
    } else if space_len(text) > 0 {
        let rest = fields_from(text.skip(space_len(text) as int), seq![]);
        if started.len() == 0 {
            rest
        } else {
            seq![started] + rest
        }
    } else {
        fields_from(text.skip(1), started.push(text[0]))
    }
}

/// The assignments in `text`, which white space separates.
pub open spec fn fields(text: Seq<u8>) -> Seq<Seq<u8>> {
    fields_from(text, seq![])
}

/// How many bytes `field` has before its first equals sign.
pub open spec fn equals_pos(field: Seq<u8>) -> nat
    decreases field.len(),
{
    if field.len() == 0 || field[0] == 0x3d {
        0
    } else {
        1 + equals_pos(field.skip(1))
    }
}

/// Whether `text` starts with a hyphen, which unsets an attribute, or with an
/// exclamation mark, which leaves it unspecified.
pub open spec fn is_prefixed(text: Seq<u8>) -> bool {
    text.len() > 0 && (text[0] == 0x2d || text[0] == 0x21)
}

/// The name of the attribute that the assignment `field` is about.
pub open spec fn assigned_name(field: Seq<u8>) -> Seq<u8> {
    let name = field.take(equals_pos(field) as int);
    if is_prefixed(name) {
        name.skip(1)
    } else {
        name
    }
}

/// The value that the assignment `field` gives to its attribute, if it gives one.
pub open spec fn assigned_value(field: Seq<u8>) -> Option<Seq<u8>> {
    if is_prefixed(field) || equals_pos(field) >= field.len() {
        None
    } else {
        Some(field.skip(equals_pos(field) + 1int))
    }
}

/// Whether `byte` may stand in the name of an attribute: a letter, a digit, a
/// hyphen, a full stop or an underscore.
pub open spec fn is_name_byte(byte: u8) -> bool {
    byte == 0x2d || byte == 0x2e || byte == 0x5f || 0x41 <= byte <= 0x5a || 0x61 <= byte <= 0x7a
        || 0x30 <= byte <= 0x39
}

/// Whether `name` is well-formed as the name of an attribute.
pub open spec fn valid_name(name: Seq<u8>) -> bool {
    &&& name.len() > 0 ==> name[0] != 0x2d
    &&& forall|i: int| 0 <= i < name.len() ==> is_name_byte(#[trigger] name[i])
}

/// Whether `head` starts with `[attr]`, as the definition of a macro does.
pub open spec fn defines_macro(head: Seq<u8>) -> bool {
    head.len() >= 6 && head[0] == 0x5b && head[1] == 0x61 && head[2] == 0x74 && head[3] == 0x74
        && head[4] == 0x72 && head[5] == 0x5d
}

/// Whether `head` has nothing but white space in it.
pub open spec fn is_empty_pattern(head: Seq<u8>) -> bool {
    forall|i: int|
        0 <= i < head.len() ==> (#[trigger] head[i] == 0x20 || head[i] == 0x09 || head[i] == 0x0a
            || head[i] == 0x0c || head[i] == 0x0d)
}

/// Whether `head` is a macro with a well-formed name, or a pattern that is neither
/// empty nor negated by an exclamation mark.
pub open spec fn valid_head(head: Seq<u8>) -> bool {
    if defines_macro(head) {
        valid_name(head.skip(6))
    } else {
        !is_empty_pattern(head) && head[0] != 0x21
    }
}

/// Whether every one of the assignments `fields` has a well-formed name.
pub open spec fn valid_fields(fields: Seq<Seq<u8>>) -> bool {
    forall|i: int| 0 <= i < fields.len() ==> valid_name(assigned_name(#[trigger] fields[i]))
}

/// Whether `line` is skipped: a blank line, a comment or a malformed line.
pub open spec fn is_skipped(line: Seq<u8>) -> bool {
    match line_parts(line) {
        None => true,
        Some((head, rest)) => !valid_head(head) || !valid_fields(fields(rest)),
    }
}

/// The pattern and the assignments of `line`; `None` where it is skipped or defines
/// a macro.
pub open spec fn pattern_line(line: Seq<u8>) -> Option<(Seq<u8>, Seq<Seq<u8>>)> {
    match line_parts(line) {
        Some((head, rest)) => if is_skipped(line) || defines_macro(head) {
            None
        } else {
            Some((head, fields(rest)))
        },
        None => None,
    }
}

/// `line` alone if it counts, and nothing if it is skipped.
pub open spec fn kept_line(line: Seq<u8>) -> Seq<Seq<u8>> {
    if is_skipped(line) {
        seq![]
    } else {
        seq![line]
    }
}

/// A line that ends in a newline, without the carriage return before it if there
/// is one.
pub open spec fn without_return(line: Seq<u8>) -> Seq<u8> {
    if line.len() > 0 && line.last() == 0x0d {
        line.drop_last()
    } else {
        line
    }
}

/// The lines of `started + text` that count, where `started` holds no newline.
pub open spec fn kept_from(text: Seq<u8>, started: Seq<u8>) -> Seq<Seq<u8>>
    decreases text.len(),
{
    if text.len() == 0 {
        kept_line(started)
    } else if text[0] == 0x0a {
        kept_line(without_return(started)) + kept_from(text.skip(1), seq![])
    } else {
        kept_from(text.skip(1), started.push(text[0]))
    }
}

/// How many bytes at the start of `text` are a byte-order mark, in whatever
/// encoding; 0 where there is none.
pub open spec fn mark_len(text: Seq<u8>) -> nat {
    if text.len() >= 4 && (text[0] == 0 && text[1] == 0 && text[2] == 0xfe && text[3] == 0xff
        || text[0] == 0xff && text[1] == 0xfe && text[2] == 0 && text[3] == 0 || text[0] == 0x84
        && text[1] == 0x31 && text[2] == 0x95 && text[3] == 0x33 || text[0] == 0xdd && text[1]
        == 0x73 && text[2] == 0x66 && text[3] == 0x73 || text[0] == 0x2b && text[1] == 0x2f
        && text[2] == 0x76 && (text[3] == 0x38 || text[3] == 0x39 || text[3] == 0x2b || text[3]
        == 0x2f)) {
        4
    } else if text.len() >= 3 && (text[0] == 0xef && text[1] == 0xbb && text[2] == 0xbf || text[0]
        == 0x0e && text[1] == 0xfe && text[2] == 0xff || text[0] == 0xf7 && text[1] == 0x64
        && text[2] == 0x4c || text[0] == 0xfb && text[1] == 0xee && text[2] == 0x28) {
        3
    } else if text.len() >= 2 && (text[0] == 0xfe && text[1] == 0xff || text[0] == 0xff && text[1]
        == 0xfe) {
        2
    } else {
        0
    }
}

/// `text` without the byte-order mark at its start.
pub open spec fn without_mark(text: Seq<u8>) -> Seq<u8> {
    text.skip(mark_len(text) as int)
}

/// The lines of an attributes file with the contents `text` that count.
pub open spec fn kept_lines(text: Seq<u8>) -> Seq<Seq<u8>> {
    kept_from(without_mark(text), seq![])
}

/// Whether `text` is made of whole lines: it is empty or ends in a newline.
pub open spec fn whole_lines(text: Seq<u8>) -> bool {
    text.len() > 0 ==> text.last() == 0x0a
}

proof fn lemma_kept_concat(text: Seq<u8>, more: Seq<u8>, started: Seq<u8>)
    requires
        text.len() > 0,
        text.last() == 0x0a,
    ensures
        kept_from(text + more, started) == kept_from(text, started) + kept_from(more, seq![]),
    decreases text.len(),
{
    let whole = text + more;
    assert(whole.skip(1) =~= text.skip(1) + more);
    if text.len() == 1 {
        assert(text.skip(1) =~= Seq::<u8>::empty());
        assert(text.skip(1) + more =~= more);
        lemma_empty_line_skipped();
        assert(kept_from(text, started) =~= kept_line(without_return(started)));
    } else {
        assert(text.skip(1).last() == 0x0a);
        if text[0] == 0x0a {
            lemma_kept_concat(text.skip(1), more, seq![]);
            assert(kept_line(without_return(started)) + (kept_from(text.skip(1), seq![])
                + kept_from(more, seq![])) =~= kept_line(without_return(started)) + kept_from(
                text.skip(1),
                seq![],
            ) + kept_from(more, seq![]));
        } else {
            lemma_kept_concat(text.skip(1), more, started.push(text[0]));
        }
    }
}

proof fn lemma_empty_line_skipped()
    ensures
        is_skipped(seq![]),
        kept_from(seq![], seq![]) == Seq::<Seq<u8>>::empty(),
{
}

/// An empty text has no lines.
pub proof fn empty_text_has_no_lines()
    ensures
        kept_lines(seq![]) == Seq::<Seq<u8>>::empty(),
{
    assert(without_mark(seq![]) =~= Seq::<u8>::empty());
    lemma_empty_line_skipped();
}

/// No byte-order mark holds a space, so that a text which is followed by one starts
/// with a mark if and only if it does so alone.
pub proof fn mark_ends_before_blank(text: Seq<u8>, rest: Seq<u8>)
    requires
        rest.len() > 0,
        rest[0] == 0x20,
    ensures
        mark_len(text + rest) == mark_len(text),
{
    let whole = text + rest;
    assert(whole[text.len() as int] == 0x20);
    assert(forall|i: int| 0 <= i < text.len() ==> whole[i] == text[i]);
}

proof fn lemma_kept_one_line(text: Seq<u8>, started: Seq<u8>)
    requires
        forall|i: int| 0 <= i < text.len() ==> text[i] != 0x0a,
    ensures
        kept_from(text.push(0x0a), started) == kept_line(without_return(started + text)),
    decreases text.len(),
{
    let whole = text.push(0x0a);
    if text.len() == 0 {
        assert(started + text =~= started);
        assert(whole.skip(1) =~= Seq::<u8>::empty());
        lemma_empty_line_skipped();
        assert(kept_from(whole, started) =~= kept_line(without_return(started)));
    } else {
        assert(whole.skip(1) =~= text.skip(1).push(0x0a));
        assert(started.push(text[0]) + text.skip(1) =~= started + text);
        lemma_kept_one_line(text.skip(1), started.push(text[0]));
    }
}

proof fn lemma_mark_in_first_line(text: Seq<u8>, more: Seq<u8>)
    requires
        text.len() > 0,
        text.last() == 0x0a,
    ensures
        mark_len(text + more) == mark_len(text),
        mark_len(text) < text.len(),
        without_mark(text + more) == without_mark(text) + more,
        without_mark(text).len() > 0,
        without_mark(text).last() == 0x0a,
{
    let whole = text + more;
    assert(whole[text.len() - 1] == 0x0a);
    assert(forall|i: int| 0 <= i < text.len() ==> whole[i] == text[i]);
    assert(without_mark(whole) =~= without_mark(text) + more);
}

/// The lines that count in whole lines and the text after them are those of the
/// one, then those of the other. Where nothing comes before it, the text after
/// them must have no byte-order mark.
pub proof fn kept_lines_concat(text: Seq<u8>, more: Seq<u8>)
    requires
        whole_lines(text),
        mark_len(more) == 0,
    ensures
        kept_lines(text + more) == kept_lines(text) + kept_lines(more),
{
    assert(without_mark(more) =~= more);
    if text.len() == 0 {
        assert(text + more =~= more);
        assert(without_mark(text) =~= Seq::<u8>::empty());
        lemma_empty_line_skipped();
        assert(kept_lines(text) + kept_lines(more) =~= kept_lines(more));
    } else {
        lemma_mark_in_first_line(text, more);
        lemma_kept_concat(without_mark(text), more, seq![]);
    }
}

/// What whole lines `text` and the text `more` after them come to, where `text` is
/// not empty: `more` is then read as it stands, whatever it starts with.
proof fn lemma_kept_after(text: Seq<u8>, more: Seq<u8>)
    requires
        text.len() > 0,
        text.last() == 0x0a,
    ensures
        kept_lines(text + more) == kept_lines(text) + kept_from(more, seq![]),
{
    lemma_mark_in_first_line(text, more);
    lemma_kept_concat(without_mark(text), more, seq![]);
}

/// What is read of `line` where `before` comes before it: in the first line a
/// byte-order mark is not.
pub open spec fn line_as_read(before: Seq<u8>, line: Seq<u8>) -> Seq<u8> {
    if before.len() == 0 {
        without_return(without_mark(line))
    } else {
        without_return(line)
    }
}

/// A line that follows whole lines is read as one more line.
pub proof fn kept_lines_grow(before: Seq<u8>, line: Seq<u8>)
    requires
        whole_lines(before),
        forall|i: int| 0 <= i < line.len() ==> line[i] != 0x0a,
    ensures
        kept_lines(before + line.push(0x0a)) == kept_lines(before) + kept_line(
            line_as_read(before, line),
        ),
{
    let ended = line.push(0x0a);
    if before.len() == 0 {
        assert(before + ended =~= ended);
        assert(without_mark(before) =~= Seq::<u8>::empty());
        lemma_empty_line_skipped();
        lemma_mark_in_first_line(ended, seq![]);
        let read = without_mark(line);
        assert(mark_len(ended) == mark_len(line)) by {
            assert(ended[line.len() as int] == 0x0a);
            assert(forall|i: int| 0 <= i < line.len() ==> ended[i] == line[i]);
        }
        assert(without_mark(ended) =~= read.push(0x0a));
        lemma_kept_one_line(read, seq![]);
        assert(Seq::<u8>::empty() + read =~= read);
        assert(kept_lines(before) + kept_line(without_return(read)) =~= kept_line(
            without_return(read),
        ));
    } else {
        lemma_kept_after(before, ended);
        lemma_kept_one_line(line, seq![]);
        assert(Seq::<u8>::empty() + line =~= line);
    }
}

/// A line that is skipped can be left out, wherever it stands. Where it is the
/// first line, the text after it must have no byte-order mark, which would start
/// to count.
pub proof fn skipped_line_can_be_left_out(before: Seq<u8>, line: Seq<u8>, after: Seq<u8>)
    requires
        whole_lines(before),
        forall|i: int| 0 <= i < line.len() ==> line[i] != 0x0a,
        is_skipped(line_as_read(before, line)),
        before.len() == 0 ==> mark_len(after) == 0,
    ensures
        kept_lines(before + line.push(0x0a) + after) == kept_lines(before + after),
{
    let upto = before + line.push(0x0a);
    kept_lines_grow(before, line);
    assert(upto.last() == 0x0a);
    lemma_kept_after(upto, after);
    assert(kept_lines(upto) =~= kept_lines(before));
    if before.len() == 0 {
        kept_lines_concat(before, after);
        assert(without_mark(after) =~= after);
    } else {
        lemma_kept_after(before, after);
    }
}

proof fn lemma_trim_unblank(line: Seq<u8>)
    requires
        line.len() > 0,
        !is_blank(line[0]),
    ensures
        trim_blanks(line) == line,
{
}

proof fn lemma_word_then_blank(word: Seq<u8>, rest: Seq<u8>)
    requires
        forall|i: int| 0 <= i < word.len() ==> !is_blank(#[trigger] word[i]),
        rest.len() > 0 ==> is_blank(rest[0]),
    ensures
        word_len(word + rest) == word.len(),
    decreases word.len(),
{
    if word.len() == 0 {
        assert(word + rest =~= rest);
    } else {
        assert(!is_blank(word[0]));
        assert((word + rest).skip(1) =~= word.skip(1) + rest);
        assert forall|i: int| 0 <= i < word.skip(1).len() implies !is_blank(
            #[trigger] word.skip(1)[i],
        ) by {
            assert(word.skip(1)[i] == word[i + 1]);
        }
        lemma_word_then_blank(word.skip(1), rest);
    }
}

/// Whether `pattern` can stand at the start of a line as it is, without quotes, and
/// is a valid pattern: it holds no blank and no newline, is not empty, does not
/// start a comment, a quotation or a negation, and defines no macro.
pub open spec fn is_plain_pattern(pattern: Seq<u8>) -> bool {
    &&& forall|i: int|
        0 <= i < pattern.len() ==> !is_blank(#[trigger] pattern[i]) && pattern[i] != 0x0a
    &&& !is_empty_pattern(pattern)
    &&& pattern[0] != 0x23 && pattern[0] != 0x22 && pattern[0] != 0x21
    &&& !defines_macro(pattern)
}

/// A line made of a plain pattern, a space and the rest has that pattern as its
/// head.
pub proof fn plain_line_parts(pattern: Seq<u8>, rest: Seq<u8>)
    requires
        is_plain_pattern(pattern),
    ensures
        line_parts(pattern + seq![0x20u8] + rest) == Some((pattern, seq![0x20u8] + rest)),
{
    let line = pattern + seq![0x20u8] + rest;
    let tail = seq![0x20u8] + rest;
    assert(line =~= pattern + tail);
    assert(pattern.len() > 0);
    assert(line[0] == pattern[0]);
    lemma_trim_unblank(line);
    lemma_word_then_blank(pattern, tail);
    assert(line.take(pattern.len() as int) =~= pattern);
    assert(line.skip(pattern.len() as int) =~= tail);
}

/// Whether `text` is made of visible ASCII characters.
pub open spec fn is_visible_ascii(text: Seq<u8>) -> bool {
    forall|i: int| 0 <= i < text.len() ==> 0x21 <= #[trigger] text[i] <= 0x7e
}

proof fn lemma_visible_is_one_field(text: Seq<u8>, started: Seq<u8>)
    requires
        is_visible_ascii(text),
        started.len() + text.len() > 0,
    ensures
        fields_from(text, started) == seq![started + text],
    decreases text.len(),
{
    if text.len() == 0 {
        assert(started + text =~= started);
    } else {
        assert(space_len(text) == 0) by {
            assert(0x21 <= text[0] <= 0x7e);
        }
        assert forall|i: int| 0 <= i < text.skip(1).len() implies 0x21 <= #[trigger] text.skip(
            1,
        )[i] <= 0x7e by {
            assert(text.skip(1)[i] == text[i + 1]);
        }
        lemma_visible_is_one_field(text.skip(1), started.push(text[0]));
        assert(started.push(text[0]) + text.skip(1) =~= started + text);
    }
}

/// A line made of a plain pattern, a space and one assignment of visible ASCII
/// characters.
pub proof fn plain_line_fields(pattern: Seq<u8>, assignment: Seq<u8>)
    requires
        is_plain_pattern(pattern),
        assignment.len() > 0,
        is_visible_ascii(assignment),
    ensures
        is_skipped(pattern + seq![0x20u8] + assignment) <==> !valid_name(
            assigned_name(assignment),
        ),
        valid_name(assigned_name(assignment)) ==> pattern_line(
            pattern + seq![0x20u8] + assignment,
        ) == Some((pattern, seq![assignment])),
{
    plain_line_parts(pattern, assignment);
    let rest = seq![0x20u8] + assignment;
    assert(space_len(rest) == 1);
    assert(rest.skip(1) =~= assignment);
    lemma_visible_is_one_field(assignment, seq![]);
    assert(Seq::<u8>::empty() + assignment =~= assignment);
    assert(fields(rest) =~= seq![assignment]);
    assert(fields(rest)[0] == assignment);
}

/// A comment, a blank line and a line with a negated pattern are skipped.
pub proof fn comment_blank_and_negated_lines_are_skipped(line: Seq<u8>)
    requires
        ({
            let text = trim_blanks(line);
            text.len() == 0 || text[0] == 0x23 || text[0] == 0x21
        }),
    ensures
        is_skipped(line),
{
    let text = trim_blanks(line);
    if text.len() > 0 && text[0] == 0x21 {
        lemma_word_len_bounded(text);
        assert(text.take(word_len(text) as int)[0] == 0x21);
    }
}

proof fn lemma_word_len_bounded(text: Seq<u8>)
    ensures
        word_len(text) <= text.len(),
        text.len() > 0 && !is_blank(text[0]) ==> word_len(text) >= 1,
    decreases text.len(),
{
    if text.len() > 0 && !is_blank(text[0]) {
        lemma_word_len_bounded(text.skip(1));
    }
}

proof fn lemma_no_equals(field: Seq<u8>)
    requires
        forall|i: int| 0 <= i < field.len() ==> #[trigger] field[i] != 0x3d,
    ensures
        equals_pos(field) == field.len(),
    decreases field.len(),
{
    if field.len() > 0 {
        assert(field[0] != 0x3d);
        assert forall|i: int| 0 <= i < field.skip(1).len() implies #[trigger] field.skip(1)[i]
            != 0x3d by {
            assert(field.skip(1)[i] == field[i + 1]);
        }
        lemma_no_equals(field.skip(1));
    }
}

proof fn lemma_equals_after(name: Seq<u8>, value: Seq<u8>)
    requires
        forall|i: int| 0 <= i < name.len() ==> #[trigger] name[i] != 0x3d,
    ensures
        equals_pos(name + seq![0x3du8] + value) == name.len(),
    decreases name.len(),
{
    let field = name + seq![0x3du8] + value;
    if name.len() > 0 {
        assert(name[0] != 0x3d);
        assert forall|i: int| 0 <= i < name.skip(1).len() implies #[trigger] name.skip(1)[i]
            != 0x3d by {
            assert(name.skip(1)[i] == name[i + 1]);
        }
        lemma_equals_after(name.skip(1), value);
        assert(field.skip(1) =~= name.skip(1) + seq![0x3du8] + value);
    }
}

/// A hyphen and a name unset the attribute; a name, an equals sign and a value give
/// it that value.
pub proof fn assignment_forms(name: Seq<u8>, value: Seq<u8>)
    requires
        valid_name(name),
        name.len() > 0,
    ensures
        assigned_name(seq![0x2du8] + name) == name,
        assigned_value(seq![0x2du8] + name) == None::<Seq<u8>>,
        assigned_name(name + seq![0x3du8] + value) == name,
        assigned_value(name + seq![0x3du8] + value) == Some(value),
{
    assert forall|i: int| 0 <= i < name.len() implies #[trigger] name[i] != 0x3d && name[i]
        != 0x21 by {
        assert(is_name_byte(name[i]));
    }
    let unset = seq![0x2du8] + name;
    lemma_no_equals(unset);
    assert(unset.take(unset.len() as int) =~= unset);
    assert(unset.skip(1) =~= name);
    let given = name + seq![0x3du8] + value;
    lemma_equals_after(name, value);
    assert(given.take(name.len() as int) =~= name);
    assert(given.skip(name.len() + 1int) =~= value);
    assert(name[0] != 0x21);
    assert(given[0] == name[0]);
}

} // verus!

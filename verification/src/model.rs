//! The mathematical model of the parse, and the laws proved about it.
//!
//! [`spec_parse_line`] gives the meaning of one protocol line and
//! [`spec_parse`] the meaning of a whole batch; the executable parser in
//! the crate root is proved to return exactly these. The proof functions
//! at the end of this module state the guarantees a caller can rely on.

use vstd::prelude::*;

use crate::line::LineModel;
use crate::scan::find_at;
use crate::scan::lemma_find_at;
use crate::scan::split_on;
use crate::scan::strip_cr;

verus! {

/// Diagnostic text for an empty line.
pub open spec fn empty_line_msg() -> Seq<char> {
    "line length cannot be 0"@
}

/// Diagnostic text for a tags segment that no space terminates.
pub open spec fn tags_msg() -> Seq<char> {
    "tags segment has no terminating space"@
}

/// Diagnostic text for a tag entry without an `=` after a non-empty key.
pub open spec fn tag_entry_msg() -> Seq<char> {
    "malformed tag entry"@
}

/// Diagnostic text for a source segment that no space terminates.
pub open spec fn source_msg() -> Seq<char> {
    "source segment has no terminating space"@
}

/// Diagnostic text for a command that no space terminates.
pub open spec fn command_msg() -> Seq<char> {
    "command has no terminating space"@
}

/// The line begins with a tags segment.
pub open spec fn has_tags(line: Seq<char>) -> bool {
    line.len() > 0 && line[0] == '@'
}

/// Index of the space that ends the tags segment: the first space of the
/// line; its length when there is none.
pub open spec fn tags_end(line: Seq<char>) -> nat {
    find_at(line, ' ', 0)
}

/// Cursor position after the tags segment.
pub open spec fn body_start(line: Seq<char>) -> nat {
    if has_tags(line) {
        (tags_end(line) + 1) as nat
    } else {
        0
    }
}

/// The tag entries: the payload between the `@` and the first space,
/// split on `;`.
pub open spec fn tag_entries(line: Seq<char>) -> Seq<Seq<char>> {
    split_on(line.subrange(1, tags_end(line) as int), ';')
}

/// A tag entry is well-formed when an `=` follows a non-empty key.
pub open spec fn entry_ok(e: Seq<char>) -> bool {
    0 < find_at(e, '=', 0) < e.len()
}

/// The key of a tag entry: everything before its first `=`.
pub open spec fn entry_key(e: Seq<char>) -> Seq<char> {
    e.subrange(0, find_at(e, '=', 0) as int)
}

/// The value of a tag entry: everything after its first `=`.
pub open spec fn entry_val(e: Seq<char>) -> Seq<char> {
    e.subrange(find_at(e, '=', 0) as int + 1, e.len() as int)
}

/// Every entry of the sequence is well-formed.
pub open spec fn entries_ok(entries: Seq<Seq<char>>) -> bool {
    forall|j: int| 0 <= j < entries.len() ==> entry_ok(#[trigger] entries[j])
}

/// The tag map denoted by a sequence of entries; a later entry with the
/// same key overwrites an earlier one.
pub open spec fn tags_of(entries: Seq<Seq<char>>) -> Map<Seq<char>, Seq<char>>
    decreases entries.len(),
{
    if entries.len() == 0 {
        Map::empty()
    } else {
        tags_of(entries.drop_last()).insert(entry_key(entries.last()), entry_val(entries.last()))
    }
}

/// The line carries a source prefix: a `:` stands at the cursor after the
/// tags segment.
pub open spec fn has_source(line: Seq<char>) -> bool {
    body_start(line) < line.len() && line[body_start(line) as int] == ':'
}

/// Index of the space that ends the source segment.
pub open spec fn source_end(line: Seq<char>) -> nat {
    find_at(line, ' ', (body_start(line) + 1) as nat)
}

/// Cursor position of the command's first character.
pub open spec fn command_start(line: Seq<char>) -> nat {
    if has_source(line) {
        (source_end(line) + 1) as nat
    } else {
        body_start(line)
    }
}

/// Index of the space that ends the command.
pub open spec fn command_end(line: Seq<char>) -> nat {
    find_at(line, ' ', (command_start(line) + 1) as nat)
}

/// Cursor position where the parameter text begins.
pub open spec fn params_start(line: Seq<char>) -> nat {
    (command_end(line) + 1) as nat
}

/// Index of the colon that introduces the trailing parameter, searched
/// strictly after the parameter cursor; the length of the line when there
/// is none.
pub open spec fn trailing_colon(line: Seq<char>) -> nat {
    find_at(line, ':', (params_start(line) + 1) as nat)
}

/// The line has a trailing parameter.
pub open spec fn has_trailing(line: Seq<char>) -> bool {
    trailing_colon(line) < line.len()
}

/// The trailing parameter: everything after the introducing colon, kept
/// verbatim.
pub open spec fn trailing_text(line: Seq<char>) -> Seq<char> {
    line.subrange(trailing_colon(line) as int + 1, line.len() as int)
}

/// The middle-parameter text: from the cursor after the command up to one
/// character before the trailing colon (discarding the space before it),
/// or to the end of the line.
pub open spec fn middle_text(line: Seq<char>) -> Seq<char> {
    let pend = if has_trailing(line) {
        trailing_colon(line) - 1
    } else {
        line.len() as int
    };
    line.subrange(params_start(line) as int, pend)
}

/// The parameter list: the middle text split on single spaces (runs of
/// spaces give empty parameters; empty middle text gives none at all),
/// then the trailing parameter, if any, as the final element.
pub open spec fn params_of(line: Seq<char>) -> Seq<Seq<char>> {
    let mids = if middle_text(line).len() == 0 {
        Seq::empty()
    } else {
        split_on(middle_text(line), ' ')
    };
    if has_trailing(line) {
        mids.push(trailing_text(line))
    } else {
        mids
    }
}

/// The meaning of parsing one line: tags, then source, then command, then
/// parameters, under a single left-to-right cursor.
pub open spec fn spec_parse_line(line: Seq<char>) -> Result<LineModel, Seq<char>> {
    if line.len() == 0 {
        Err(empty_line_msg())
    } else if has_tags(line) && tags_end(line) >= line.len() {
        Err(tags_msg())
    } else if has_tags(line) && !entries_ok(tag_entries(line)) {
        Err(tag_entry_msg())
    } else if has_source(line) && source_end(line) >= line.len() {
        Err(source_msg())
    } else if command_end(line) >= line.len() {
        Err(command_msg())
    } else {
        Ok(
            LineModel {
                tags: if has_tags(line) {
                    tags_of(tag_entries(line))
                } else {
                    Map::empty()
                },
                source: if has_source(line) {
                    Some(line.subrange(body_start(line) as int, source_end(line) as int))
                } else {
                    None
                },
                command: line.subrange(command_start(line) as int, command_end(line) as int),
                params: params_of(line),
            },
        )
    }
}

/// The meaning of parsing a batch of lines: each line in order, stopping
/// at the first failure.
pub open spec fn spec_parse_lines(lines: Seq<Seq<char>>) -> Result<Seq<LineModel>, Seq<char>>
    decreases lines.len(),
{
    if lines.len() == 0 {
        Ok(Seq::empty())
    } else {
        match spec_parse_line(lines[0]) {
            Err(d) => Err(d),
            Ok(m) => match spec_parse_lines(lines.drop_first()) {
                Err(d) => Err(d),
                Ok(rest) => Ok(seq![m] + rest),
            },
        }
    }
}

/// The meaning of [`crate::parse`]: strip every carriage return, split on
/// newlines, and parse the resulting lines as a batch.
pub open spec fn spec_parse(text: Seq<char>) -> Result<Seq<LineModel>, Seq<char>> {
    spec_parse_lines(split_on(strip_cr(text), '\n'))
}

/// Appending one more line to a batch extends a successful parse by that
/// line's result, and keeps an earlier failure.
pub proof fn lemma_parse_lines_push(lines: Seq<Seq<char>>, x: Seq<char>)
    ensures
        spec_parse_lines(lines.push(x)) == (match spec_parse_lines(lines) {
            Err(d) => Err(d),
            Ok(ms) => match spec_parse_line(x) {
                Err(d) => Err(d),
                Ok(m) => Ok(ms.push(m)),
            },
        }),
    decreases lines.len(),
{
    let p = lines.push(x);
    assert(p.len() == lines.len() + 1);
    if lines.len() == 0 {
        assert(p[0] == x);
        assert(p.drop_first() =~= Seq::<Seq<char>>::empty());
        assert(spec_parse_lines(p.drop_first()) == Ok::<Seq<LineModel>, Seq<char>>(
            Seq::<LineModel>::empty(),
        ));
        assert(spec_parse_lines(lines) == Ok::<Seq<LineModel>, Seq<char>>(
            Seq::<LineModel>::empty(),
        ));
        match spec_parse_line(x) {
            Err(d) => {
                assert(spec_parse_lines(p) == Err::<Seq<LineModel>, Seq<char>>(d));
            },
            Ok(m) => {
                assert(spec_parse_lines(p) == Ok::<Seq<LineModel>, Seq<char>>(
                    seq![m] + Seq::<LineModel>::empty(),
                ));
                assert(seq![m] + Seq::<LineModel>::empty() =~= Seq::<LineModel>::empty().push(m));
            },
        }
    } else {
        assert(p[0] == lines[0]);
        assert(p.drop_first() =~= lines.drop_first().push(x));
        lemma_parse_lines_push(lines.drop_first(), x);
        match spec_parse_line(lines[0]) {
            Err(_) => {},
            Ok(m0) => {
                match spec_parse_lines(lines.drop_first()) {
                    Err(_) => {},
                    Ok(rest) => {
                        assert(spec_parse_lines(lines) == Ok::<Seq<LineModel>, Seq<char>>(
                            seq![m0] + rest,
                        ));
                        match spec_parse_line(x) {
                            Err(_) => {},
                            Ok(m) => {
                                assert(spec_parse_lines(p.drop_first()) == Ok::<
                                    Seq<LineModel>,
                                    Seq<char>,
                                >(rest.push(m)));
                                assert(spec_parse_lines(p) == Ok::<Seq<LineModel>, Seq<char>>(
                                    seq![m0] + rest.push(m),
                                ));
                                assert(seq![m0] + rest.push(m) =~= (seq![m0] + rest).push(m));
                            },
                        }
                    },
                }
            },
        }
    }
}

/// A failing prefix decides the whole batch.
pub proof fn lemma_parse_lines_prefix_err(a: Seq<Seq<char>>, b: Seq<Seq<char>>)
    requires
        spec_parse_lines(a) is Err,
        a.is_prefix_of(b),
    ensures
        spec_parse_lines(b) == spec_parse_lines(a),
    decreases a.len(),
{
    assert(a.len() > 0);
    assert(b.len() >= a.len());
    assert(b[0] == a[0]);
    if spec_parse_line(a[0]) is Ok {
        assert(spec_parse_lines(a.drop_first()) is Err);
        assert(a.drop_first() =~= b.drop_first().take(a.len() - 1));
        assert(a.drop_first().is_prefix_of(b.drop_first()));
        lemma_parse_lines_prefix_err(a.drop_first(), b.drop_first());
    }
}

/// Each well-formed entry's key is in the denoted tag map.
pub proof fn lemma_tags_of_contains(entries: Seq<Seq<char>>, j: int)
    requires
        0 <= j < entries.len(),
    ensures
        tags_of(entries).contains_key(entry_key(entries[j])),
    decreases entries.len(),
{
    if j < entries.len() - 1 {
        assert(entries.drop_last()[j] == entries[j]);
        lemma_tags_of_contains(entries.drop_last(), j);
    }
}

/// The denoted tag map takes each key to the value of the last entry that
/// holds it.
pub proof fn lemma_tags_of_last_value(entries: Seq<Seq<char>>, j: int)
    requires
        0 <= j < entries.len(),
        forall|j2: int| j < j2 < entries.len() ==> entry_key(#[trigger] entries[j2]) != entry_key(entries[j]),
    ensures
        tags_of(entries)[entry_key(entries[j])] == entry_val(entries[j]),
    decreases entries.len(),
{
    let last = entries.len() - 1;
    if j < last {
        assert(entry_key(entries[last]) != entry_key(entries[j]));
        assert(entries.drop_last()[j] == entries[j]);
        assert forall|j2: int| j < j2 < entries.drop_last().len() implies entry_key(
            #[trigger] entries.drop_last()[j2],
        ) != entry_key(entries.drop_last()[j]) by {
            assert(entries.drop_last()[j2] == entries[j2]);
        }
        lemma_tags_of_last_value(entries.drop_last(), j);
    }
}

/// A valid line that opens neither a tags segment nor a source prefix
/// parses with an empty tag map and an absent source.
pub proof fn lemma_plain_line(line: Seq<char>, m: LineModel)
    requires
        spec_parse_line(line) == Ok::<LineModel, Seq<char>>(m),
        line.len() > 0,
        line[0] != '@',
        line[0] != ':',
    ensures
        m.tags == Map::<Seq<char>, Seq<char>>::empty(),
        m.source is None,
{
    assert(!has_tags(line));
    assert(body_start(line) == 0);
    assert(!has_source(line));
}

/// Every `key=value` entry of the tags segment appears in the parsed tag
/// map; when no later entry repeats its key, the map holds its exact
/// value, so duplicate keys keep the last-seen value.
pub proof fn lemma_tags_reflect_entries(line: Seq<char>, m: LineModel, j: int)
    requires
        spec_parse_line(line) == Ok::<LineModel, Seq<char>>(m),
        has_tags(line),
        0 <= j < tag_entries(line).len(),
    ensures
        m.tags.contains_key(entry_key(tag_entries(line)[j])),
        (forall|j2: int|
            j < j2 < tag_entries(line).len() ==> entry_key(#[trigger] tag_entries(line)[j2])
                != entry_key(tag_entries(line)[j])) ==> m.tags[entry_key(tag_entries(line)[j])]
            == entry_val(tag_entries(line)[j]),
{
    lemma_tags_of_contains(tag_entries(line), j);
    if forall|j2: int|
        j < j2 < tag_entries(line).len() ==> entry_key(#[trigger] tag_entries(line)[j2])
            != entry_key(tag_entries(line)[j]) {
        lemma_tags_of_last_value(tag_entries(line), j);
    }
}

/// The parsed source is the exact substring of the line from its leading
/// `:` up to, but not including, the next space, kept verbatim.
pub proof fn lemma_source_verbatim(line: Seq<char>, m: LineModel)
    requires
        spec_parse_line(line) == Ok::<LineModel, Seq<char>>(m),
        has_source(line),
    ensures
        m.source == Some(line.subrange(body_start(line) as int, source_end(line) as int)),
        line[body_start(line) as int] == ':',
        body_start(line) < source_end(line) < line.len(),
        line[source_end(line) as int] == ' ',
        forall|t: int| body_start(line) < t < source_end(line) ==> line[t] != ' ',
{
    lemma_find_at(line, ' ', (body_start(line) + 1) as nat);
}

/// When the line has a trailing parameter, the final parameter is the
/// full text after the introducing colon, verbatim, embedded spaces
/// included, with no further splitting.
pub proof fn lemma_trailing_verbatim(line: Seq<char>, m: LineModel)
    requires
        spec_parse_line(line) == Ok::<LineModel, Seq<char>>(m),
        has_trailing(line),
    ensures
        m.params.len() > 0,
        m.params.last() == line.subrange(trailing_colon(line) as int + 1, line.len() as int),
{
}

/// A successful batch parse yields exactly one message per line, in input
/// order, each the parse of its own line.
pub proof fn lemma_lines_in_order(lines: Seq<Seq<char>>, ms: Seq<LineModel>)
    requires
        spec_parse_lines(lines) == Ok::<Seq<LineModel>, Seq<char>>(ms),
    ensures
        ms.len() == lines.len(),
        forall|i: int|
            0 <= i < lines.len() ==> spec_parse_line(#[trigger] lines[i]) == Ok::<
                LineModel,
                Seq<char>,
            >(ms[i]),
    decreases lines.len(),
{
    if lines.len() > 0 {
        let rest = spec_parse_lines(lines.drop_first())->Ok_0;
        lemma_lines_in_order(lines.drop_first(), rest);
        assert forall|i: int| 0 <= i < lines.len() implies spec_parse_line(#[trigger] lines[i])
            == Ok::<LineModel, Seq<char>>(ms[i]) by {
            if i > 0 {
                assert(lines.drop_first()[i - 1] == lines[i]);
                assert(ms[i] == rest[i - 1]);
            }
        }
    }
}

/// A batch parse succeeds exactly when every one of its lines parses.
pub proof fn lemma_batch_ok(lines: Seq<Seq<char>>)
    ensures
        spec_parse_lines(lines) is Ok <==> (forall|i: int|
            0 <= i < lines.len() ==> spec_parse_line(#[trigger] lines[i]) is Ok),
    decreases lines.len(),
{
    if lines.len() > 0 {
        lemma_batch_ok(lines.drop_first());
        if spec_parse_line(lines[0]) is Ok && (forall|i: int|
            0 <= i < lines.drop_first().len() ==> spec_parse_line(
                #[trigger] lines.drop_first()[i],
            ) is Ok) {
            assert forall|i: int| 0 <= i < lines.len() implies spec_parse_line(
                #[trigger] lines[i],
            ) is Ok by {
                if i > 0 {
                    assert(lines.drop_first()[i - 1] == lines[i]);
                }
            }
        }
        if forall|i: int| 0 <= i < lines.len() ==> spec_parse_line(#[trigger] lines[i]) is Ok {
            assert forall|i: int| 0 <= i < lines.drop_first().len() implies spec_parse_line(
                #[trigger] lines.drop_first()[i],
            ) is Ok by {
                assert(lines.drop_first()[i] == lines[i + 1]);
            }
        }
    }
}

} // verus!

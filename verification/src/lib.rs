//! A verified parser for RFC1459-style IRC protocol lines.
//!
//! A protocol line has the shape
//! `[@tag1=value1;tag2=value2 ][:source ]COMMAND[ param1 ...][ :trailing]`.
//! [`parse`] splits one line, or a batch of newline-separated lines, into
//! metadata tags, an optional source prefix, the command, and the parameter
//! list, handling the trailing parameter that may itself contain spaces.
//! The function [`crate::model::spec_parse`] is the mathematical model of the
//! whole parse, and every entry point is proved against it.

use std::collections::VecDeque;

use vstd::prelude::*;
use vstd::string::*;

pub mod line;
pub mod model;
pub mod scan;

pub use line::Line;

verus! {

/// Error describing why a protocol line could not be parsed.
#[derive(Debug, Clone)]
pub struct ParseError {
    /// The details of this error.
    pub details: String,
}

impl ParseError {
    /// Creates a new [`ParseError`] carrying the given diagnostic text.
    pub fn new(details: &str) -> (e: ParseError)
        ensures
            e.details@ == details@,
    {
        ParseError { details: details.to_owned() }
    }
}

/// First index of `c` in `text` strictly after `start`, or `None` when
/// there is none.
fn find_index(text: &str, c: char, start: usize) -> (r: Option<usize>)
    ensures
        match r {
            Some(k) => k as nat == scan::find_at(text@, c, start as nat + 1) && k < text@.len(),
            None => scan::find_at(text@, c, start as nat + 1) == text@.len(),
        },
{
    let n = text.unicode_len();
    if start >= n {
        return None;
    }
    let k = scan::find_from(text, c, start + 1);
    if k == n {
        None
    } else {
        Some(k)
    }
}

/// Parses a single protocol line.
///
/// A tag entry whose `=` is missing, or whose key is empty, is rejected as
/// malformed; the value of an entry is everything after its first `=`.
pub fn parse_line(line: &str) -> (r: Result<Line, ParseError>)
    ensures
        match r {
            Ok(l) => model::spec_parse_line(line@) == Ok::<line::LineModel, Seq<char>>(l@)
                && l.wf(),
            Err(e) => model::spec_parse_line(line@) == Err::<line::LineModel, Seq<char>>(
                e.details@,
            ),
        },
{
    let n = line.unicode_len();
    if n == 0 {
        return Err(ParseError::new("line length cannot be 0"));
    }
    let mut tags: Vec<(String, String)> = Vec::new();
    let mut source: Option<String> = None;
    let mut idx: usize = 0;

    // Tags segment.
    if line.get_char(0) == '@' {
        let sp = scan::find_from(line, ' ', 0);
        proof {
            scan::lemma_find_at(line@, ' ', 0);
        }
        if sp == n {
            return Err(ParseError::new("tags segment has no terminating space"));
        }
        let payload = line.substring_char(1, sp);
        let entries = scan::split_string(payload, ';');
        let ghost evs = model::tag_entries(line@);
        proof {
            assert(payload@ == line@.subrange(1, sp as int));
            assert(evs == scan::str_views(entries@));
        }
        let mut j: usize = 0;
        while j < entries.len()
            invariant
                n == line@.len(),
                line@.len() > 0,
                line@[0] == '@',
                sp as nat == model::tags_end(line@),
                sp < n,
                evs == model::tag_entries(line@),
                evs == scan::str_views(entries@),
                j <= entries@.len(),
                forall|t: int| 0 <= t < j ==> model::entry_ok(#[trigger] evs[t]),
                line::distinct_keys(line::pair_views(tags@)),
                line::map_of(line::pair_views(tags@)) == model::tags_of(evs.take(j as int)),
                forall|k: Seq<char>|
                    line::map_of(line::pair_views(tags@)).contains_key(k) ==> k.len() > 0,
            decreases entries@.len() - j,
        {
            let entry = &entries[j];
            let es = entry.as_str();
            let el = es.unicode_len();
            proof {
                assert(es@ == evs[j as int]);
            }
            if el == 0 {
                return Err(ParseError::new("malformed tag entry"));
            }
            let eq = scan::find_from(es, '=', 0);
            proof {
                scan::lemma_find_at(es@, '=', 0);
            }
            if eq == 0 || eq == el {
                proof {
                    assert(!model::entry_ok(evs[j as int]));
                }
                return Err(ParseError::new("malformed tag entry"));
            }
            proof {
                assert(model::entry_ok(evs[j as int]));
            }
            let key = es.substring_char(0, eq).to_owned();
            let value = es.substring_char(eq + 1, el).to_owned();
            proof {
                assert(key@ == model::entry_key(evs[j as int]));
                assert(value@ == model::entry_val(evs[j as int]));
            }
            line::insert_tag(&mut tags, key, value);
            proof {
                assert(evs.take(j as int + 1).drop_last() =~= evs.take(j as int));
                assert(evs.take(j as int + 1).last() == evs[j as int]);
            }
            j += 1;
        }
        proof {
            assert(evs.take(evs.len() as int) =~= evs);
            assert(model::entries_ok(evs));
        }
        idx = sp + 1;
    }
    proof {
        assert(idx as nat == model::body_start(line@));
        assert(line::map_of(line::pair_views(tags@)) == (if model::has_tags(line@) {
            model::tags_of(model::tag_entries(line@))
        } else {
            Map::<Seq<char>, Seq<char>>::empty()
        }));
    }

    // Source segment.
    if idx < n && line.get_char(idx) == ':' {
        proof {
            assert(model::has_source(line@));
        }
        match find_index(line, ' ', idx) {
            Some(e) => {
                proof {
                    scan::lemma_find_at(line@, ' ', idx as nat + 1);
                }
                source = Some(line.substring_char(idx, e).to_owned());
                idx = e + 1;
            },
            None => {
                return Err(ParseError::new("source segment has no terminating space"));
            },
        }
    }
    proof {
        assert(idx as nat == model::command_start(line@));
    }

    // Command segment.
    let cmd_end = match find_index(line, ' ', idx) {
        Some(e) => e,
        None => {
            return Err(ParseError::new("command has no terminating space"));
        },
    };
    proof {
        assert(cmd_end as nat == model::command_end(line@));
        scan::lemma_find_at(line@, ' ', idx as nat + 1);
    }
    let command = line.substring_char(idx, cmd_end);

    // Parameters segment.
    let pstart = cmd_end + 1;
    proof {
        assert(pstart as nat == model::params_start(line@));
    }
    let cpos = match find_index(line, ':', pstart) {
        Some(p) => p,
        None => n,
    };
    proof {
        assert(cpos as nat == model::trailing_colon(line@) || (cpos == n
            && model::trailing_colon(line@) == n));
        scan::lemma_find_at(line@, ':', pstart as nat + 1);
    }
    let pend = if cpos < n {
        cpos - 1
    } else {
        n
    };
    let middle = line.substring_char(pstart, pend);
    proof {
        assert(middle@ == model::middle_text(line@));
    }
    let mut params: Vec<String> = if middle.unicode_len() == 0 {
        Vec::new()
    } else {
        scan::split_string(middle, ' ')
    };
    proof {
        if middle@.len() == 0 {
            assert(scan::str_views(params@) =~= Seq::<Seq<char>>::empty());
        }
    }
    if cpos < n {
        let ghost prev = params@;
        let trailing = line.substring_char(cpos + 1, n).to_owned();
        params.push(trailing);
        proof {
            assert(scan::str_views(params@) =~= scan::str_views(prev).push(
                model::trailing_text(line@),
            ));
        }
    }
    proof {
        assert(scan::str_views(params@) == model::params_of(line@));
    }
    let l = Line::new(tags, source, command, params);
    proof {
        assert(model::spec_parse_line(line@) == Ok::<line::LineModel, Seq<char>>(l@));
        assert(l.wf());
    }
    Ok(l)
}

/// Parses an IRC message.
///
/// `text` may comprise multiple lines separated by newline characters;
/// carriage returns are stripped first, and each line becomes one element
/// of the returned deque, in input order. The first line that fails to
/// parse fails the whole call; an empty line (in particular, the empty
/// string, or a trailing newline's empty segment) is such a failure.
pub fn parse(text: &str) -> (r: Result<VecDeque<Line>, ParseError>)
    ensures
        match r {
            Ok(lines) => model::spec_parse(text@) == Ok::<Seq<line::LineModel>, Seq<char>>(
                line::line_views(lines@),
            ) && forall|i: int| 0 <= i < lines@.len() ==> (#[trigger] lines@[i]).wf(),
            Err(e) => model::spec_parse(text@) == Err::<Seq<line::LineModel>, Seq<char>>(
                e.details@,
            ),
        },
{
    let cleaned = scan::remove_cr(text);
    let segs = scan::split_string(cleaned.as_str(), '\n');
    let ghost lsegs = scan::split_on(scan::strip_cr(text@), '\n');
    proof {
        assert(scan::str_views(segs@) == lsegs);
    }
    let mut out: VecDeque<Line> = VecDeque::new();
    let mut i: usize = 0;
    proof {
        assert(lsegs.take(0) =~= Seq::<Seq<char>>::empty());
        assert(line::line_views(out@) =~= Seq::<line::LineModel>::empty());
    }
    while i < segs.len()
        invariant
            lsegs == scan::split_on(scan::strip_cr(text@), '\n'),
            scan::str_views(segs@) == lsegs,
            i <= segs@.len(),
            model::spec_parse_lines(lsegs.take(i as int)) == Ok::<Seq<line::LineModel>, Seq<char>>(
                line::line_views(out@),
            ),
            forall|t: int| 0 <= t < out@.len() ==> (#[trigger] out@[t]).wf(),
        decreases segs@.len() - i,
    {
        let seg = &segs[i];
        proof {
            assert(seg@ == lsegs[i as int]);
            assert(lsegs.take(i as int + 1) =~= lsegs.take(i as int).push(lsegs[i as int]));
            model::lemma_parse_lines_push(lsegs.take(i as int), lsegs[i as int]);
        }
        match parse_line(seg.as_str()) {
            Ok(l) => {
                let ghost prev = out@;
                out.push_back(l);
                proof {
                    assert(line::line_views(out@) =~= line::line_views(prev).push(l@));
                }
            },
            Err(e) => {
                proof {
                    assert(model::spec_parse_lines(lsegs.take(i as int + 1)) == Err::<
                        Seq<line::LineModel>,
                        Seq<char>,
                    >(e.details@));
                    assert(lsegs.take(i as int + 1).is_prefix_of(lsegs));
                    model::lemma_parse_lines_prefix_err(lsegs.take(i as int + 1), lsegs);
                }
                return Err(e);
            },
        }
        i += 1;
    }
    proof {
        assert(lsegs.take(lsegs.len() as int) =~= lsegs);
    }
    Ok(out)
}

} // verus!


//! The parsed representation of one protocol line.

use vstd::prelude::*;

verus! {

/// Mathematical model of a parsed line: tags as a map over character
/// sequences, the optional source, the command, and the parameters.
pub struct LineModel {
    /// The tag map; empty when the line has no tags segment.
    pub tags: Map<Seq<char>, Seq<char>>,
    /// The source prefix, kept verbatim with its leading `:`.
    pub source: Option<Seq<char>>,
    /// The command verb or numeric reply code, case as given.
    pub command: Seq<char>,
    /// The parameters, in the order they appeared on the wire.
    pub params: Seq<Seq<char>>,
}

/// The views of a sequence of key-value string pairs.
pub open spec fn pair_views(s: Seq<(String, String)>) -> Seq<(Seq<char>, Seq<char>)> {
    s.map_values(|p: (String, String)| (p.0@, p.1@))
}

/// The map that a sequence of key-value pairs denotes; a later pair with
/// the same key overwrites an earlier one.
pub open spec fn map_of(pairs: Seq<(Seq<char>, Seq<char>)>) -> Map<Seq<char>, Seq<char>>
    decreases pairs.len(),
{
    if pairs.len() == 0 {
        Map::empty()
    } else {
        map_of(pairs.drop_last()).insert(pairs.last().0, pairs.last().1)
    }
}

/// No two pairs share a key.
pub open spec fn distinct_keys(pairs: Seq<(Seq<char>, Seq<char>)>) -> bool {
    forall|i: int, j: int| 0 <= i < j < pairs.len() ==> pairs[i].0 != pairs[j].0
}

/// A key is in the denoted map exactly when some pair holds it, and the
/// map takes each key to the value of the last pair holding it.
pub proof fn lemma_map_of_get(pairs: Seq<(Seq<char>, Seq<char>)>, k: Seq<char>)
    ensures
        map_of(pairs).contains_key(k) <==> exists|i: int| 0 <= i < pairs.len() && pairs[i].0 == k,
        forall|i: int|
            0 <= i < pairs.len() && pairs[i].0 == k && (forall|j: int|
                i < j < pairs.len() ==> pairs[j].0 != k) ==> map_of(pairs)[k] == pairs[i].1,
    decreases pairs.len(),
{
    if pairs.len() > 0 {
        lemma_map_of_get(pairs.drop_last(), k);
        let last = pairs.len() - 1;
        assert forall|i: int|
            0 <= i < pairs.len() && pairs[i].0 == k && (forall|j: int|
                i < j < pairs.len() ==> pairs[j].0 != k) implies map_of(pairs)[k] == pairs[i].1 by {
            if i == last {
            } else {
                assert(pairs[last].0 != k);
                assert(pairs.drop_last()[i] == pairs[i]);
                assert(forall|j: int|
                    i < j < pairs.drop_last().len() ==> pairs.drop_last()[j] == pairs[j]);
            }
        }
        if map_of(pairs).contains_key(k) && pairs[last].0 != k {
            assert(map_of(pairs.drop_last()).contains_key(k));
            let i = choose|i: int| 0 <= i < pairs.drop_last().len() && pairs.drop_last()[i].0 == k;
            assert(pairs[i].0 == k);
        }
        if exists|i: int| 0 <= i < pairs.len() && pairs[i].0 == k {
            let i = choose|i: int| 0 <= i < pairs.len() && pairs[i].0 == k;
            if i < last {
                assert(pairs.drop_last()[i].0 == k);
            }
        }
    }
}

/// Overwriting the value at the unique pair holding key `k` changes the
/// denoted map as an insert of the new value does.
pub proof fn lemma_map_of_update(
    pairs: Seq<(Seq<char>, Seq<char>)>,
    i: int,
    k: Seq<char>,
    v: Seq<char>,
)
    requires
        distinct_keys(pairs),
        0 <= i < pairs.len(),
        pairs[i].0 == k,
    ensures
        map_of(pairs.update(i, (k, v))) == map_of(pairs).insert(k, v),
    decreases pairs.len(),
{
    let upd = pairs.update(i, (k, v));
    let last = pairs.len() - 1;
    if i == last {
        assert(upd.drop_last() =~= pairs.drop_last());
        assert(map_of(upd) =~= map_of(pairs).insert(k, v));
    } else {
        assert(upd.drop_last() =~= pairs.drop_last().update(i, (k, v)));
        assert(pairs.drop_last()[i] == pairs[i]);
        lemma_map_of_update(pairs.drop_last(), i, k, v);
        assert(upd.last() == pairs.last());
        assert(pairs.last().0 != k);
        assert(map_of(upd) =~= map_of(pairs).insert(k, v));
    }
}

/// A parsed line.
#[derive(Debug, Clone, Default)]
pub struct Line {
    /// This line's tags as key-value pairs with distinct keys; empty when
    /// the line has no tags segment.
    pub tags: Vec<(String, String)>,
    /// This line's source (including the nick, user, and host), kept
    /// verbatim with its leading `:`; `None` if not provided.
    pub source: Option<String>,
    /// This line's command.
    pub command: String,
    /// Any parameters passed to the command; empty when there are none.
    pub params: Vec<String>,
}

impl View for Line {
    type V = LineModel;

    open spec fn view(&self) -> LineModel {
        LineModel {
            tags: map_of(pair_views(self.tags@)),
            source: match self.source {
                Some(s) => Some(s@),
                None => None,
            },
            command: self.command@,
            params: crate::scan::str_views(self.params@),
        }
    }
}

impl Line {
    /// A line produced by a successful parse: the stored tag pairs have
    /// distinct, non-empty keys, and the command is non-empty.
    pub open spec fn wf(&self) -> bool {
        &&& distinct_keys(pair_views(self.tags@))
        &&& forall|k: Seq<char>| self@.tags.contains_key(k) ==> k.len() > 0
        &&& self@.command.len() > 0
    }

    /// Creates a new [`Line`] from its four components. [`crate::parse`]
    /// calls this for each line it accepts.
    pub fn new(
        tags: Vec<(String, String)>,
        source: Option<String>,
        command: &str,
        params: Vec<String>,
    ) -> (r: Line)
        ensures
            r.tags == tags,
            r.source == source,
            r.command@ == command@,
            r.params == params,
            r@ == (LineModel {
                tags: map_of(pair_views(tags@)),
                source: match source {
                    Some(s) => Some(s@),
                    None => None,
                },
                command: command@,
                params: crate::scan::str_views(params@),
            }),
    {
        Line { tags, source, command: command.to_owned(), params }
    }

    /// Looks up the value of the tag named `key`, or `None` when the line
    /// carries no such tag.
    pub fn tag(&self, key: &str) -> (r: Option<&String>)
        ensures
            match r {
                Some(v) => self@.tags.contains_key(key@) && v@ == self@.tags[key@],
                None => !self@.tags.contains_key(key@),
            },
    {
        let k = key.to_owned();
        let ghost pairs = pair_views(self.tags@);
        let mut i = self.tags.len();
        while i > 0
            invariant
                i <= self.tags.len(),
                pairs == pair_views(self.tags@),
                k@ == key@,
                forall|j: int| i <= j < pairs.len() ==> pairs[j].0 != key@,
            decreases i,
        {
            i = i - 1;
            proof {
                assert(pairs[i as int] == (self.tags@[i as int].0@, self.tags@[i as int].1@));
            }
            let hit = self.tags[i].0 == k;
            if hit {
                proof {
                    assert(pairs[i as int].0 == key@);
                    lemma_map_of_get(pairs, key@);
                }
                return Some(&self.tags[i].1);
            }
            proof {
                assert(pairs[i as int].0 != key@);
            }
        }
        proof {
            lemma_map_of_get(pairs, key@);
        }
        None
    }
}

/// The models of a sequence of lines.
pub open spec fn line_views(s: Seq<Line>) -> Seq<LineModel> {
    s.map_values(|l: Line| l@)
}

/// Inserts the tag `key` with value `value`, overwriting the value of an
/// existing pair with the same key.
pub fn insert_tag(tags: &mut Vec<(String, String)>, key: String, value: String)
    requires
        distinct_keys(pair_views(old(tags)@)),
    ensures
        distinct_keys(pair_views(final(tags)@)),
        map_of(pair_views(final(tags)@)) == map_of(pair_views(old(tags)@)).insert(key@, value@),
{
    let ghost pairs = pair_views(tags@);
    let mut i: usize = 0;
    while i < tags.len()
        invariant
            i <= tags.len(),
            tags@ == old(tags)@,
            pairs == pair_views(tags@),
            distinct_keys(pairs),
            forall|j: int| 0 <= j < i ==> pairs[j].0 != key@,
        decreases tags.len() - i,
    {
        let hit = tags[i].0 == key;
        if hit {
            proof {
                assert(pairs[i as int].0 == key@);
            }
            tags.set(i, (key, value));
            proof {
                assert(pair_views(tags@) =~= pairs.update(i as int, (key@, value@)));
                lemma_map_of_update(pairs, i as int, key@, value@);
            }
            return ;
        }
        proof {
            assert(pairs[i as int].0 != key@);
        }
        i += 1;
    }
    tags.push((key, value));
    proof {
        assert(pair_views(tags@) =~= pairs.push((key@, value@)));
        assert(pair_views(tags@).drop_last() =~= pairs);
        lemma_map_of_get(pairs, key@);
    }
}

} // verus!

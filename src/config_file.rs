//! The route file format: one `SOURCE -> DEST1, DEST2, ...` route per line.

use vstd::prelude::*;

use crate::routes::{Config, HashMapConfig};
use crate::text::{chars_of, lemma_split_on_nonempty, split_on, split_range, trim, trim_range, views};

verus! {

/// Reads route tables written one route per line: `SOURCE -> DEST1, DEST2, ...`.
#[derive(Clone, Copy)]
pub struct ConfigLoader {}

pub open spec fn arrow_at(s: Seq<char>, i: int) -> bool {
    0 <= i && i + 1 < s.len() && s[i] == '-' && s[i + 1] == '>'
}

/// `->` occurs in `s` at `i` and nowhere else.
pub open spec fn single_arrow_at(s: Seq<char>, i: int) -> bool {
    arrow_at(s, i) && forall|j: int| #[trigger] arrow_at(s, j) ==> j == i
}

/// The trimmed, comma-separated destinations of the right-hand side of a line.
pub open spec fn destinations_of(rhs: Seq<char>) -> Seq<Seq<char>> {
    split_on(rhs, ',').map_values(|p: Seq<char>| trim(p))
}

/// The route a line declares: its trimmed source path and destinations.
/// A line without exactly one `->`, or with nothing but white space after it,
/// declares none. Items of a non-empty list are kept as they are, empty ones
/// included.
pub open spec fn route_of_line(line: Seq<char>) -> Option<(Seq<char>, Seq<Seq<char>>)> {
    if exists|i: int| single_arrow_at(line, i) {
        let i = choose|i: int| single_arrow_at(line, i);
        let rhs = line.subrange(i + 2, line.len() as int);
        if trim(rhs).len() == 0 {
            None
        } else {
            Some((trim(line.subrange(0, i)), destinations_of(rhs)))
        }
    } else {
        None
    }
}

pub open spec fn route_path(line: Seq<char>) -> Seq<char> {
    route_of_line(line).unwrap().0
}

pub open spec fn route_dests(line: Seq<char>) -> Seq<Seq<char>> {
    route_of_line(line).unwrap().1
}

/// The table that a sequence of lines declares: lines are taken in order,
/// and a later route for a path replaces an earlier one.
pub open spec fn routes_of_lines(lines: Seq<Seq<char>>) -> Map<Seq<char>, Seq<Seq<char>>>
    decreases lines.len(),
{
    if lines.len() == 0 {
        Map::empty()
    } else {
        let m = routes_of_lines(lines.drop_last());
        match route_of_line(lines.last()) {
            Some(route) => m.insert(route.0, route.1),
            None => m,
        }
    }
}

/// The table that a route file declares.
pub open spec fn routes_of_text(text: Seq<char>) -> Map<Seq<char>, Seq<Seq<char>>> {
    routes_of_lines(split_on(text, '\n'))
}

/// A path is routed to the destinations of the last well-formed line that
/// names it, in the order that line lists them.
pub proof fn lemma_last_line_wins(lines: Seq<Seq<char>>, i: int)
    requires
        0 <= i < lines.len(),
        route_of_line(lines[i]) is Some,
        forall|j: int|
            i < j < lines.len() ==> (#[trigger] route_of_line(lines[j])) is None
                || route_path(lines[j]) != route_path(lines[i]),
    ensures
        routes_of_lines(lines).contains_key(route_path(lines[i])),
        routes_of_lines(lines)[route_path(lines[i])] == route_dests(lines[i]),
        route_dests(lines[i]).len() > 0,
    decreases lines.len(),
{
    let line = lines[i];
    let k = choose|k: int| single_arrow_at(line, k);
    lemma_split_on_nonempty(line.subrange(k + 2, line.len() as int), ',');
    if i < lines.len() - 1 {
        let front = lines.drop_last();
        assert(front[i] == lines[i]);
        assert forall|j: int| i < j < front.len() implies (#[trigger] route_of_line(front[j])) is None
            || route_path(front[j]) != route_path(front[i]) by {
            assert(front[j] == lines[j]);
        }
        lemma_last_line_wins(front, i);
        assert(route_of_line(lines[lines.len() - 1]) is None || route_path(lines[lines.len() - 1]) != route_path(lines[i]));
    }
}

/// A path that no well-formed line names has no route.
pub proof fn lemma_unnamed_path_has_no_route(lines: Seq<Seq<char>>, path: Seq<char>)
    requires
        forall|j: int|
            0 <= j < lines.len() ==> (#[trigger] route_of_line(lines[j])) is None
                || route_path(lines[j]) != path,
    ensures
        !routes_of_lines(lines).contains_key(path),
    decreases lines.len(),
{
    if lines.len() > 0 {
        let front = lines.drop_last();
        assert forall|j: int| 0 <= j < front.len() implies (#[trigger] route_of_line(front[j])) is None
            || route_path(front[j]) != path by {
            assert(front[j] == lines[j]);
        }
        lemma_unnamed_path_has_no_route(front, path);
        assert(route_of_line(lines[lines.len() - 1]) is None || route_path(lines[lines.len() - 1]) != path);
    }
}

/// A malformed line is skipped: the table is the one the other lines declare,
/// those after it included.
pub proof fn lemma_malformed_line_skipped(lines: Seq<Seq<char>>, i: int)
    requires
        0 <= i < lines.len(),
        route_of_line(lines[i]) is None,
    ensures
        routes_of_lines(lines) == routes_of_lines(lines.remove(i)),
    decreases lines.len(),
{
    if i == lines.len() - 1 {
        assert(lines.remove(i) =~= lines.drop_last());
    } else {
        let front = lines.drop_last();
        lemma_malformed_line_skipped(front, i);
        assert(lines.remove(i).drop_last() =~= front.remove(i));
        assert(lines.remove(i).last() == lines.last());
    }
}

/// The index of the only `->` in `s`, if there is exactly one.
fn find_single_arrow(s: &Vec<char>) -> (r: Option<usize>)
    ensures
        r is Some ==> single_arrow_at(s@, r->0 as int),
        r is None ==> !exists|i: int| single_arrow_at(s@, i),
{
    let n = s.len();
    if n == 0 {
        return None;
    }
    let mut first: Option<usize> = None;
    let mut i: usize = 0;
    while i + 1 < n
        invariant
            n == s@.len(),
            i < n,
            first is None ==> forall|j: int| 0 <= j < i ==> !#[trigger] arrow_at(s@, j),
            first is Some ==> first->0 < i && arrow_at(s@, first->0 as int) && forall|j: int|
                0 <= j < i && #[trigger] arrow_at(s@, j) ==> j == first->0,
        decreases s@.len() - i,
    {
        if s[i] == '-' && s[i + 1] == '>' {
            assert(arrow_at(s@, i as int));
            if first.is_some() {
                assert(!single_arrow_at(s@, first->0 as int));
                assert forall|k: int| !single_arrow_at(s@, k) by {
                    if single_arrow_at(s@, k) {
                        assert(arrow_at(s@, i as int));
                        assert(arrow_at(s@, first->0 as int));
                    }
                }
                return None;
            }
            first = Some(i);
        }
        i += 1;
    }
    assert forall|j: int| #[trigger] arrow_at(s@, j) implies j < i by {}
    first
}

/// Relies on `String`'s `FromIterator<char>`: the string holds the
/// characters in the order given.
#[verifier::external_body]
fn string_from_chars(v: &Vec<char>) -> (r: String)
    ensures
        r@ == v@,
{
    v.iter().collect()
}

impl ConfigLoader {
    /// The route a line declares, if it is well formed.
    pub fn parse_line(line: &Vec<char>) -> (r: Option<(String, Vec<String>)>)
        ensures
            r is None <==> route_of_line(line@) is None,
            r is Some ==> route_of_line(line@) == Some(
                (r.unwrap().0@, r.unwrap().1.deep_view()),
            ),
    {
        let arrow = find_single_arrow(line);
        match arrow {
            None => None,
            Some(i) => {
                proof {
                    assert(arrow_at(line@, i as int));
                    assert(forall|k: int| single_arrow_at(line@, k) ==> k == i);
                }
                let n = line.len();
                let rhs = trim_range(line, i + 2, n);
                if rhs.len() == 0 {
                    return None;
                }
                let pieces = split_range(line, i + 2, n, ',');
                let mut trimmed: Vec<Vec<char>> = Vec::new();
                let mut k: usize = 0;
                while k < pieces.len()
                    invariant
                        k <= pieces@.len(),
                        views(trimmed@) == views(pieces@).take(k as int).map_values(
                            |p: Seq<char>| trim(p),
                        ),
                    decreases pieces@.len() - k,
                {
                    let t = trim_range(&pieces[k], 0, pieces[k].len());
                    assert(pieces[k as int]@.subrange(0, pieces[k as int]@.len() as int)
                        =~= pieces[k as int]@);
                    assert(views(pieces@)[k as int] == pieces@[k as int]@);
                    let ghost prev = views(trimmed@);
                    trimmed.push(t);
                    assert(views(trimmed@) =~= prev.push(t@));
                    k += 1;
                    assert(views(trimmed@) =~= views(pieces@).take(k as int).map_values(
                        |p: Seq<char>| trim(p),
                    ));
                }
                assert(views(pieces@).take(k as int) =~= views(pieces@));
                assert(views(trimmed@) == destinations_of(
                    line@.subrange(i + 2, line@.len() as int),
                ));
                let source = trim_range(line, 0, i);
                let mut dests: Vec<String> = Vec::new();
                let mut k: usize = 0;
                while k < trimmed.len()
                    invariant
                        k <= trimmed@.len(),
                        dests.deep_view() == views(trimmed@).take(k as int),
                    decreases trimmed@.len() - k,
                {
                    let d = string_from_chars(&trimmed[k]);
                    assert(views(trimmed@)[k as int] == trimmed@[k as int]@);
                    let ghost prev = dests.deep_view();
                    dests.push(d);
                    assert(dests.deep_view() =~= prev.push(d@));
                    k += 1;
                    assert(dests.deep_view() =~= views(trimmed@).take(k as int));
                }
                assert(views(trimmed@).take(k as int) =~= views(trimmed@));
                Some((string_from_chars(&source), dests))
            },
        }
    }

    /// The route table a route file's text declares. Malformed lines are
    /// skipped; for a path named twice the later line wins.
    pub fn load_from_str(text: &str) -> (r: HashMapConfig)
        ensures
            r.routes() == routes_of_text(text@),
    {
        let chars = chars_of(text);
        let lines = split_range(&chars, 0, chars.len(), '\n');
        assert(chars@.subrange(0, chars@.len() as int) =~= text@);
        let mut config = HashMapConfig::new();
        let mut i: usize = 0;
        while i < lines.len()
            invariant
                i <= lines@.len(),
                views(lines@) == split_on(text@, '\n'),
                config.routes() == routes_of_lines(views(lines@).take(i as int)),
            decreases lines@.len() - i,
        {
            let ghost before = views(lines@).take(i as int);
            assert(views(lines@).take(i + 1).drop_last() =~= before);
            assert(views(lines@).take(i + 1).last() == lines@[i as int]@);
            match Self::parse_line(&lines[i]) {
                Some((source, dests)) => {
                    config.add_dests(source, dests);
                },
                None => {},
            }
            i += 1;
        }
        assert(views(lines@).take(i as int) =~= views(lines@));
        config
    }
}

} // verus!

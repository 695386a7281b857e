use crate::sched::{has_street, Intersection, Schedule};
use crate::text::{
    decimal_of, push_decimal, chars_of, lines_of, parse_u32, split_lines, split_tokens, string_of, tokens_of, u32_of,
};
use crate::names::{views, NameIndex};
use crate::{IntersectionId, Simulation, Street, StreetId, Time};
use std::collections::HashMap;
use vstd::prelude::*;

verus! {

broadcast use vstd::std_specs::hash::group_hash_axioms;

/// Why a text could not be read; `line` counts from 1.
#[derive(Clone, Copy, PartialEq, Eq, Structural, Debug)]
pub enum ParseError {
    /// The text has no line at all.
    MissingFirstLine,
    /// The text ends before line `line`.
    MissingLine { line: usize },
    /// A field that must be a number is not one.
    InvalidNumber { line: usize },
    /// A line does not have the number of fields it must have.
    WrongFieldCount { line: usize },
    /// A car path or a schedule names a street that does not exist.
    UnknownStreet { line: usize },
    /// An intersection of a schedule lists a street twice.
    DuplicateStreet { line: usize },
    /// An intersection id is not below the number of intersections.
    IntersectionOutOfRange { line: usize },
    /// A green time or a travel time is zero.
    ZeroTime { line: usize },
    /// The numbers are too large for the simulation to count with.
    TooLarge { line: usize },
}

/// The tokens of line `i` of `ls`.
pub open spec fn toks(ls: Seq<Seq<char>>, i: int) -> Seq<Seq<char>> {
    tokens_of(ls[i])
}

/// The number that token `k` of line `i` writes.
pub open spec fn num(ls: Seq<Seq<char>>, i: int, k: int) -> u32 {
    u32_of(toks(ls, i)[k])->Some_0
}

/// Token `k` of line `i` writes a number.
pub open spec fn is_num(ls: Seq<Seq<char>>, i: int, k: int) -> bool {
    u32_of(toks(ls, i)[k]) is Some
}

/// A street line: `start end name travel_time`, with intersections below
/// `ni` and a travel time of at least a second.
pub open spec fn street_line_ok(ls: Seq<Seq<char>>, i: int, ni: u32) -> bool {
    &&& toks(ls, i).len() == 4
    &&& is_num(ls, i, 0) && is_num(ls, i, 1) && is_num(ls, i, 3)
    &&& num(ls, i, 0) < ni && num(ls, i, 1) < ni
    &&& num(ls, i, 3) >= 1
}

/// The name of street `j` of an instance text.
pub open spec fn street_name(ls: Seq<Seq<char>>, j: int) -> Seq<char> {
    toks(ls, 1 + j)[2]
}

/// The names of the first `ns` streets.
pub open spec fn names_of(ls: Seq<Seq<char>>, ns: int) -> Seq<Seq<char>> {
    Seq::new(ns as nat, |j: int| street_name(ls, j))
}

/// Some street among the first `ns` is named `name`.
pub open spec fn names_street(ls: Seq<Seq<char>>, ns: int, name: Seq<char>) -> bool {
    names_of(ls, ns).contains(name)
}

/// The index of the last of `names` equal to `name`.
pub open spec fn last_named(names: Seq<Seq<char>>, name: Seq<char>) -> int {
    choose|j: int|
        0 <= j < names.len() && names[j] == name && forall|j2: int|
            j < j2 < names.len() ==> names[j2] != name
}

/// The last street among the first `ns` named `name`.
pub open spec fn street_named(ls: Seq<Seq<char>>, ns: int, name: Seq<char>) -> int {
    last_named(names_of(ls, ns), name)
}

/// A car line: its length, then that many known street names.
pub open spec fn car_line_ok(ls: Seq<Seq<char>>, i: int, ns: int) -> bool {
    let t = toks(ls, i);
    &&& t.len() >= 2
    &&& is_num(ls, i, 0)
    &&& num(ls, i, 0) == t.len() - 1
    &&& forall|k: int| 1 <= k < t.len() ==> names_street(ls, ns, #[trigger] t[k])
}

/// The five numbers of the first line: duration, intersections, streets,
/// cars and bonus.
pub open spec fn header_ok(ls: Seq<Seq<char>>) -> bool {
    &&& ls.len() >= 1
    &&& toks(ls, 0).len() == 5
    &&& forall|k: int| 0 <= k < 5 ==> #[trigger] is_num(ls, 0, k)
}

/// Whether `s` is the text of an instance that can be simulated.
pub open spec fn instance_ok(s: Seq<char>) -> bool {
    let ls = lines_of(s);
    let ns = num(ls, 0, 2) as int;
    let nc = num(ls, 0, 3) as int;
    &&& header_ok(ls)
    &&& ls.len() >= 1 + ns + nc
    &&& forall|j: int| 0 <= j < ns ==> #[trigger] street_line_ok(ls, 1 + j, num(ls, 0, 1))
    &&& forall|c: int| 0 <= c < nc ==> #[trigger] car_line_ok(ls, 1 + ns + c, ns)
    &&& num(ls, 0, 0) < u32::MAX
    &&& nc * (num(ls, 0, 4) + num(ls, 0, 0)) <= u64::MAX
}

/// `sim` is the instance that the text `s` describes.
pub open spec fn describes(s: Seq<char>, sim: &Simulation) -> bool {
    let ls = lines_of(s);
    let ns = num(ls, 0, 2) as int;
    &&& sim.duration == num(ls, 0, 0)
    &&& sim.num_intersections == num(ls, 0, 1)
    &&& sim.bonus == num(ls, 0, 4)
    &&& sim.streets@.len() == ns
    &&& sim.car_paths@.len() == num(ls, 0, 3)
    &&& forall|j: int|
        0 <= j < ns ==> {
            &&& (#[trigger] sim.streets@[j]).name@ == street_name(ls, j)
            &&& sim.streets@[j].start_insersection == num(ls, 1 + j, 0)
            &&& sim.streets@[j].end_intersection == num(ls, 1 + j, 1)
            &&& sim.streets@[j].travel_time == num(ls, 1 + j, 3)
        }
    &&& forall|c: int|
        0 <= c < sim.car_paths@.len() ==> {
            let t = toks(ls, 1 + ns + c);
            &&& (#[trigger] sim.car_paths@[c])@.len() == t.len() - 1
            &&& forall|k: int|
                0 <= k < sim.car_paths@[c]@.len() ==> #[trigger] sim.car_paths@[c]@[k]
                    == street_named(ls, ns, t[k + 1])
        }
}

/// The street ids of the names `fields[1..]`, each the last street of that
/// name; `None` when a name is not a street's.
fn parse_path(fields: &Vec<Vec<char>>, names: &Vec<Vec<char>>, index: &NameIndex) -> (r: Option<
    Vec<StreetId>,
>)
    requires
        fields@.len() >= 1,
        index.indexes(views(names@)),
    ensures
        ({
            let nm = names@.map_values(|n: Vec<char>| n@);
            let f = fields@.map_values(|x: Vec<char>| x@);
            &&& r is Some <==> forall|k: int| 1 <= k < f.len() ==> nm.contains(#[trigger] f[k])
            &&& r matches Some(p) ==> {
                &&& p@.len() == f.len() - 1
                &&& forall|k: int|
                    0 <= k < p@.len() ==> #[trigger] p@[k] == last_named(nm, f[k + 1])
                        && p@[k] < names@.len()
            }
        }),
{
    let ghost nm = names@.map_values(|n: Vec<char>| n@);
    let ghost f = fields@.map_values(|x: Vec<char>| x@);
    let mut path: Vec<StreetId> = Vec::new();
    let mut k: usize = 1;
    while k < fields.len()
        invariant
            nm == names@.map_values(|n: Vec<char>| n@),
            f == fields@.map_values(|x: Vec<char>| x@),
            index.indexes(views(names@)),
            1 <= k <= fields@.len(),
            path@.len() == k - 1,
            forall|x: int| 1 <= x < k ==> nm.contains(#[trigger] f[x]),
            forall|x: int|
                0 <= x < k - 1 ==> #[trigger] path@[x] == last_named(nm, f[x + 1]) && path@[x]
                    < names@.len(),
        decreases fields@.len() - k,
    {
        match index.find_last(names, &fields[k]) {
            Some(id) => {
                proof {
                    assert(f[k as int] == fields@[k as int]@);
                    assert(nm[id as int] == names@[id as int]@);
                    assert(nm.contains(f[k as int]));
                    let w = last_named(nm, f[k as int]);
                    if w < id {
                        assert(nm[id as int] == f[k as int]);
                    } else if w > id {
                        assert(nm[w] == names@[w]@);
                    }
                }
                path.push(id);
            },
            None => {
                proof {
                    assert(f[k as int] == fields@[k as int]@);
                    if nm.contains(f[k as int]) {
                        let w = choose|w: int| 0 <= w < nm.len() && nm[w] == f[k as int];
                        assert(names@[w]@ == nm[w]);
                    }
                }
                return None;
            },
        }
        k += 1;
    }
    Some(path)
}

impl Street {
    /// Reads a street line `start end name travel_time` (line number
    /// `line_num`).
    pub fn parse(l: &Vec<char>, line_num: usize) -> (r: Result<Street, ParseError>)
        ensures
            match r {
                Ok(st) => {
                    let t = tokens_of(l@);
                    &&& t.len() == 4
                    &&& u32_of(t[0]) == Some(st.start_insersection)
                    &&& u32_of(t[1]) == Some(st.end_intersection)
                    &&& u32_of(t[3]) == Some(st.travel_time)
                    &&& st.name@ == t[2]
                },
                Err(e) => {
                    let t = tokens_of(l@);
                    &&& t.len() == 4 ==> e == ParseError::InvalidNumber { line: line_num }
                        && (u32_of(t[0]) is None || u32_of(t[1]) is None || u32_of(t[3]) is None)
                    &&& t.len() != 4 ==> e == ParseError::WrongFieldCount { line: line_num }
                },
            },
    {
        let fields = split_tokens(l);
        proof {
            assert(fields@.len() == tokens_of(l@).len());
        }
        if fields.len() != 4 {
            return Err(ParseError::WrongFieldCount { line: line_num });
        }
        proof {
            assert(fields@[0]@ == tokens_of(l@)[0]);
            assert(fields@[1]@ == tokens_of(l@)[1]);
            assert(fields@[2]@ == tokens_of(l@)[2]);
            assert(fields@[3]@ == tokens_of(l@)[3]);
        }
        let start = parse_u32(&fields[0]);
        let end = parse_u32(&fields[1]);
        let travel = parse_u32(&fields[3]);
        match (start, end, travel) {
            (Some(a), Some(b), Some(c)) => Ok(
                Street {
                    name: string_of(&fields[2]),
                    start_insersection: a,
                    end_intersection: b,
                    travel_time: c,
                },
            ),
            _ => Err(ParseError::InvalidNumber { line: line_num }),
        }
    }
}

impl Simulation {
    /// Reads an instance text: a line `D N_I N_S N_C B`, `N_S` street lines,
    /// then `N_C` car lines.
    pub fn parse(s: &str) -> (r: Result<Simulation, ParseError>)
        ensures
            r is Ok <==> instance_ok(s@),
            r matches Ok(sim) ==> sim.wf() && describes(s@, &sim),
            lines_of(s@).len() == 0 ==> r == Err::<Simulation, ParseError>(ParseError::MissingFirstLine),
    {
        let chars = chars_of(s);
        let lines = split_lines(&chars);
        let ghost ls = lines_of(s@);
        proof {
            assert(lines@.len() == ls.len());
            assert forall|i: int| 0 <= i < lines@.len() implies #[trigger] lines@[i]@ == ls[i] by {
                assert(lines@.map_values(|l: Vec<char>| l@)[i] == lines@[i]@);
            }
        }
        if lines.len() == 0 {
            return Err(ParseError::MissingFirstLine);
        }
        let header = split_tokens(&lines[0]);
        proof {
            assert forall|k: int| 0 <= k < header@.len() implies #[trigger] header@[k]@ == toks(ls, 0)[k] by {
                assert(header@.map_values(|t: Vec<char>| t@)[k] == header@[k]@);
            }
        }
        let mut fields: Vec<u32> = Vec::new();
        let mut k: usize = 0;
        while k < header.len()
            invariant
                ls == lines_of(s@),
                ls.len() >= 1,
                0 <= k <= header@.len(),
                header@.len() == toks(ls, 0).len(),
                forall|x: int| 0 <= x < header@.len() ==> #[trigger] header@[x]@ == toks(ls, 0)[x],
                fields@.len() == k,
                forall|x: int| 0 <= x < k ==> u32_of(toks(ls, 0)[x]) == Some(#[trigger] fields@[x]),
            decreases header@.len() - k,
        {
            match parse_u32(&header[k]) {
                Some(v) => fields.push(v),
                None => {
                    proof {
                        assert(!is_num(ls, 0, k as int));
                        assert(!header_ok(ls));
                    }
                    return Err(ParseError::InvalidNumber { line: 1 });
                },
            }
            k += 1;
        }
        if fields.len() != 5 {
            return Err(ParseError::WrongFieldCount { line: 1 });
        }
        let duration = fields[0];
        let num_intersections = fields[1];
        let num_streets = fields[2] as usize;
        let num_cars = fields[3] as usize;
        let bonus = fields[4];
        proof {
            assert(header_ok(ls));
            assert(duration == num(ls, 0, 0));
            assert(num_intersections == num(ls, 0, 1));
            assert(num_streets == num(ls, 0, 2));
            assert(num_cars == num(ls, 0, 3));
            assert(bonus == num(ls, 0, 4));
        }
        let mut streets: Vec<Street> = Vec::new();
        let mut names: Vec<Vec<char>> = Vec::new();
        let mut j: usize = 0;
        while j < num_streets
            invariant
                ls == lines_of(s@),
                lines@.len() == ls.len(),
                forall|i: int| 0 <= i < lines@.len() ==> #[trigger] lines@[i]@ == ls[i],
                header_ok(ls),
                num_streets == num(ls, 0, 2),
                num_intersections == num(ls, 0, 1),
                0 <= j <= num_streets,
                lines@.len() >= 1 + j,
                streets@.len() == j,
                names@.len() == j,
                forall|x: int| 0 <= x < j ==> #[trigger] street_line_ok(ls, 1 + x, num_intersections),
                forall|x: int|
                    0 <= x < j ==> {
                        &&& (#[trigger] streets@[x]).name@ == street_name(ls, x)
                        &&& names@[x]@ == street_name(ls, x)
                        &&& streets@[x].start_insersection == num(ls, 1 + x, 0)
                        &&& streets@[x].end_intersection == num(ls, 1 + x, 1)
                        &&& streets@[x].travel_time == num(ls, 1 + x, 3)
                    },
            decreases num_streets - j,
        {
            if j + 1 >= lines.len() {
                return Err(ParseError::MissingLine { line: j.saturating_add(2) });
            }
            let street = match Street::parse(&lines[j + 1], j.saturating_add(2)) {
                Ok(st) => st,
                Err(e) => {
                    proof {
                        assert(!street_line_ok(ls, 1 + j, num_intersections));
                    }
                    return Err(e);
                },
            };
            if street.start_insersection >= num_intersections || street.end_intersection
                >= num_intersections {
                proof {
                    assert(!street_line_ok(ls, 1 + j, num_intersections));
                }
                return Err(ParseError::IntersectionOutOfRange { line: j.saturating_add(2) });
            }
            if street.travel_time == 0 {
                proof {
                    assert(!street_line_ok(ls, 1 + j, num_intersections));
                }
                return Err(ParseError::ZeroTime { line: j.saturating_add(2) });
            }
            let fields = split_tokens(&lines[j + 1]);
            proof {
                assert(fields@.map_values(|t: Vec<char>| t@)[2] == fields@[2]@);
            }
            names.push(copy_chars(&fields[2]));
            streets.push(street);
            j += 1;
        }
        let index = NameIndex::new(&names);
        let ghost nms = names_of(ls, num_streets as int);
        proof {
            let nv = names@.map_values(|n: Vec<char>| n@);
            assert forall|x: int| 0 <= x < num_streets implies #[trigger] nv[x] == nms[x] by {
                assert(streets@[x].name@ == street_name(ls, x));
                assert(names@[x]@ == street_name(ls, x));
            }
            assert(nv =~= nms);
        }
        let mut car_paths: Vec<Vec<StreetId>> = Vec::new();
        let mut c: usize = 0;
        while c < num_cars
            invariant
                ls == lines_of(s@),
                lines@.len() == ls.len(),
                forall|i: int| 0 <= i < lines@.len() ==> #[trigger] lines@[i]@ == ls[i],
                header_ok(ls),
                num_streets == num(ls, 0, 2),
                num_cars == num(ls, 0, 3),
                num_intersections == num(ls, 0, 1),
                streets@.len() == num_streets,
                names@.map_values(|n: Vec<char>| n@) == nms,
                nms == names_of(ls, num_streets as int),
                index.indexes(views(names@)),
                names@.len() == num_streets,
                forall|x: int| 0 <= x < num_streets ==> #[trigger] street_line_ok(ls, 1 + x, num_intersections),
                0 <= c <= num_cars,
                lines@.len() >= 1 + num_streets + c,
                car_paths@.len() == c,
                forall|x: int| 0 <= x < c ==> #[trigger] car_line_ok(ls, 1 + num_streets + x, num_streets as int),
                forall|x: int|
                    0 <= x < c ==> {
                        let t = toks(ls, 1 + num_streets + x);
                        &&& (#[trigger] car_paths@[x])@.len() == t.len() - 1
                        &&& forall|k: int|
                            0 <= k < car_paths@[x]@.len() ==> #[trigger] car_paths@[x]@[k]
                                == street_named(ls, num_streets as int, t[k + 1])
                            && car_paths@[x]@[k] < num_streets
                    },
            decreases num_cars - c,
        {
            let line_idx = num_streets.saturating_add(1).saturating_add(c);
            if line_idx >= lines.len() {
                return Err(ParseError::MissingLine { line: line_idx.saturating_add(1) });
            }
            let fields = split_tokens(&lines[line_idx]);
            let ghost t = toks(ls, line_idx as int);
            proof {
                assert(fields@.map_values(|f: Vec<char>| f@) == t);
                assert forall|k: int| 0 <= k < fields@.len() implies #[trigger] fields@[k]@ == t[k] by {
                    assert(fields@.map_values(|f: Vec<char>| f@)[k] == fields@[k]@);
                }
            }
            if fields.len() < 2 {
                proof {
                    assert(!car_line_ok(ls, line_idx as int, num_streets as int));
                }
                return Err(ParseError::WrongFieldCount { line: line_idx.saturating_add(1) });
            }
            let count = match parse_u32(&fields[0]) {
                Some(n) => n,
                None => {
                    proof {
                        assert(!car_line_ok(ls, line_idx as int, num_streets as int));
                    }
                    return Err(ParseError::InvalidNumber { line: line_idx.saturating_add(1) });
                },
            };
            if count as usize != fields.len() - 1 {
                proof {
                    assert(!car_line_ok(ls, line_idx as int, num_streets as int));
                }
                return Err(ParseError::WrongFieldCount { line: line_idx.saturating_add(1) });
            }
            let path = match parse_path(&fields, &names, &index) {
                Some(p) => p,
                None => {
                    proof {
                        assert(!car_line_ok(ls, line_idx as int, num_streets as int));
                    }
                    return Err(ParseError::UnknownStreet { line: line_idx.saturating_add(1) });
                },
            };
            proof {
                assert(car_line_ok(ls, line_idx as int, num_streets as int));
            }
            car_paths.push(path);
            c += 1;
        }
        if duration == u32::MAX || (num_cars as u64).checked_mul(bonus as u64 + duration as u64).is_none() {
            return Err(ParseError::TooLarge { line: 1 });
        }
        let sim = Simulation { duration, num_intersections, streets, car_paths, bonus };
        proof {
            assert(num_cars * (bonus + duration) <= u64::MAX);
            assert forall|c: int| 0 <= c < sim.car_paths@.len() implies #[trigger] sim.car_paths@[c]@.len() >= 1 by {
                assert(car_line_ok(ls, 1 + num_streets + c, num_streets as int));
            }
            assert forall|c: int, i: int|
                0 <= c < sim.car_paths@.len() && 0 <= i < sim.car_paths@[c]@.len()
                    implies #[trigger] sim.car_paths@[c]@[i] < sim.streets@.len() by {
                assert(car_line_ok(ls, 1 + num_streets + c, num_streets as int));
            }
            assert forall|x: int| 0 <= x < sim.streets@.len() implies {
                &&& (#[trigger] sim.streets@[x]).end_intersection < sim.num_intersections
                &&& sim.streets@[x].travel_time >= 1
            } by {
                assert(street_line_ok(ls, 1 + x, num_intersections));
            }
            assert(sim.wf());
            assert(describes(s@, &sim));
        }
        Ok(sim)
    }
}

impl std::str::FromStr for Simulation {
    type Err = ParseError;

    fn from_str(s: &str) -> Result<Simulation, ParseError> {
        Simulation::parse(s)
    }
}

impl std::str::FromStr for Street {
    type Err = ParseError;

    fn from_str(s: &str) -> Result<Street, ParseError> {
        Street::parse(&chars_of(s), 1)
    }
}

/// A copy of a vector of characters.
fn copy_chars(v: &Vec<char>) -> (r: Vec<char>)
    ensures
        r@ == v@,
{
    crate::copy_vec(v)
}

/// The first street of `sim` named `name`.
pub open spec fn first_named(sim: &Simulation, name: Seq<char>) -> Option<StreetId> {
    if exists|j: int| 0 <= j < sim.streets@.len() && sim.streets@[j].name@ == name {
        Some(
            (choose|j: int|
                0 <= j < sim.streets@.len() && sim.streets@[j].name@ == name && forall|j2: int|
                    0 <= j2 < j ==> sim.streets@[j2].name@ != name) as StreetId,
        )
    } else {
        None
    }
}

/// Reads `n` street lines from line `pos` on, after the phases `acc`: each
/// a known street name, not listed before, and a green time of at least a
/// second, the cycle fitting a `Time`.
pub open spec fn read_turns(
    sim: &Simulation,
    ls: Seq<Seq<char>>,
    pos: int,
    n: int,
    acc: Seq<(StreetId, Time)>,
) -> Option<Seq<(StreetId, Time)>>
    decreases n,
{
    if n <= 0 {
        Some(acc)
    } else if pos < 0 || pos >= ls.len() {
        None
    } else {
        let t = tokens_of(ls[pos]);
        if t.len() < 2 {
            None
        } else {
            match (first_named(sim, t[0]), u32_of(t[1])) {
                (Some(street), Some(time)) => {
                    if has_street(acc, street) || time == 0 || crate::sched::cycle_of(acc) + time
                        > u32::MAX {
                        None
                    } else {
                        read_turns(sim, ls, pos + 1, n - 1, acc.push((street, time)))
                    }
                },
                _ => None,
            }
        }
    }
}

/// Reads `k` intersection blocks from line `pos` on, after the plan `acc`.
pub open spec fn read_blocks(
    sim: &Simulation,
    ls: Seq<Seq<char>>,
    pos: int,
    k: int,
    acc: Map<IntersectionId, Seq<(StreetId, Time)>>,
) -> Option<Map<IntersectionId, Seq<(StreetId, Time)>>>
    decreases k,
{
    if k <= 0 {
        Some(acc)
    } else if pos < 0 || pos + 1 >= ls.len() {
        None
    } else {
        match (u32_of(ls[pos]), u32_of(ls[pos + 1])) {
            (Some(id), Some(n)) => {
                if id >= sim.num_intersections {
                    None
                } else {
                    match read_turns(sim, ls, pos + 2, n as int, Seq::empty()) {
                        Some(turns) => read_blocks(sim, ls, pos + 2 + n, k - 1, acc.insert(id, turns)),
                        None => None,
                    }
                }
            },
            _ => None,
        }
    }
}

/// The plan that a schedule text gives, if it is a valid one for `sim`.
pub open spec fn plan_of_text(sim: &Simulation, s: Seq<char>) -> Option<
    Map<IntersectionId, Seq<(StreetId, Time)>>,
> {
    let ls = lines_of(s);
    if ls.len() == 0 {
        None
    } else {
        match u32_of(ls[0]) {
            Some(k) => read_blocks(sim, ls, 1, k as int, Map::empty()),
            None => None,
        }
    }
}

/// The names of the streets of `sim`, in order.
fn street_names(sim: &Simulation) -> (r: Vec<Vec<char>>)
    ensures
        r@.len() == sim.streets@.len(),
        forall|j: int| 0 <= j < r@.len() ==> (#[trigger] r@[j])@ == sim.streets@[j].name@,
{
    let mut r: Vec<Vec<char>> = Vec::new();
    let mut j: usize = 0;
    while j < sim.streets.len()
        invariant
            0 <= j <= sim.streets@.len(),
            r@.len() == j,
            forall|x: int| 0 <= x < j ==> (#[trigger] r@[x])@ == sim.streets@[x].name@,
        decreases sim.streets@.len() - j,
    {
        r.push(chars_of(sim.streets[j].name.as_str()));
        j += 1;
    }
    r
}

/// The first street of `sim` named `name`.
fn find_first(sim: &Simulation, names: &Vec<Vec<char>>, index: &NameIndex, name: &Vec<char>) -> (r:
    Option<StreetId>)
    requires
        index.indexes(views(names@)),
        names@.len() == sim.streets@.len(),
        forall|j: int| 0 <= j < names@.len() ==> (#[trigger] names@[j])@ == sim.streets@[j].name@,
    ensures
        r == first_named(sim, name@),
        r matches Some(j) ==> j < sim.streets@.len(),
{
    let r = index.find_first(names, name);
    proof {
        match r {
            Some(j) => {
                assert(names@[j as int]@ == sim.streets@[j as int].name@);
                assert forall|j2: int| 0 <= j2 < j implies sim.streets@[j2].name@ != name@ by {
                    assert(names@[j2]@ == sim.streets@[j2].name@);
                }
                let w = choose|w: int|
                    0 <= w < sim.streets@.len() && sim.streets@[w].name@ == name@ && forall|j2: int|
                        0 <= j2 < w ==> sim.streets@[j2].name@ != name@;
                if w < j {
                    assert(sim.streets@[w].name@ != name@);
                }
                assert(w == j);
            },
            None => {
                assert forall|j: int| 0 <= j < sim.streets@.len() implies sim.streets@[j].name@
                    != name@ by {
                    assert(names@[j]@ == sim.streets@[j].name@);
                }
            },
        }
    }
    r
}

/// Reads the `n` street lines of one intersection from line `pos` on.
#[verifier::loop_isolation(false)]
#[verifier::rlimit(80)]
fn read_intersection(
    sim: &Simulation,
    names: &Vec<Vec<char>>,
    index: &NameIndex,
    lines: &Vec<Vec<char>>,
    pos: usize,
    num_streets: u32,
    ls: Ghost<Seq<Seq<char>>>,
) -> (r: Result<Intersection, ParseError>)
    requires
        sim.wf(),
        index.indexes(views(names@)),
        names@.len() == sim.streets@.len(),
        forall|j: int| 0 <= j < names@.len() ==> (#[trigger] names@[j])@ == sim.streets@[j].name@,
        lines@.len() == ls@.len(),
        forall|x: int| 0 <= x < lines@.len() ==> #[trigger] lines@[x]@ == ls@[x],
        pos <= lines@.len(),
    ensures
        r is Ok <==> read_turns(sim, ls@, pos as int, num_streets as int, Seq::empty()) is Some,
        r matches Ok(inter) ==> {
            &&& Some(inter.turns@) == read_turns(sim, ls@, pos as int, num_streets as int, Seq::empty())
            &&& inter.wf()
            &&& forall|x: int| 0 <= x < inter.turns@.len() ==> #[trigger] inter.turns@[x].0 < sim.streets@.len()
            &&& pos + num_streets <= lines@.len()
        },
{
    let ghost ls = ls@;
    let mut intersection = Intersection::default();
    proof {
        assert(intersection.turns@ =~= Seq::<(StreetId, Time)>::empty());
    }
    let mut q: usize = pos;
    let mut i: u32 = 0;
    while i < num_streets
        invariant
            0 <= i <= num_streets,
            q == pos + i,
            q <= lines@.len(),
            intersection.wf(),
            forall|x: int|
                0 <= x < intersection.turns@.len() ==> #[trigger] intersection.turns@[x].0
                    < sim.streets@.len(),
            read_turns(sim, ls, q as int, (num_streets - i) as int, intersection.turns@)
                == read_turns(sim, ls, pos as int, num_streets as int, Seq::empty()),
        decreases num_streets - i,
    {
        if q >= lines.len() {
            return Err(ParseError::MissingLine { line: q.saturating_add(1) });
        }
        let fields = split_tokens(&lines[q]);
        let ghost t = tokens_of(ls[q as int]);
        let ghost rest = (num_streets - i) as int;
        proof {
            assert(read_turns(sim, ls, q as int, rest, intersection.turns@) == if t.len() < 2 {
                None
            } else {
                match (first_named(sim, t[0]), u32_of(t[1])) {
                    (Some(street), Some(time)) => {
                        if has_street(intersection.turns@, street) || time == 0
                            || crate::sched::cycle_of(intersection.turns@) + time > u32::MAX {
                            None
                        } else {
                            read_turns(
                                sim,
                                ls,
                                q + 1,
                                rest - 1,
                                intersection.turns@.push((street, time)),
                            )
                        }
                    },
                    _ => None,
                }
            });
            assert forall|x: int| 0 <= x < fields@.len() implies #[trigger] fields@[x]@
                == t[x] by {
                assert(fields@.map_values(|f: Vec<char>| f@)[x] == fields@[x]@);
            }
        }
        proof {
            assert(fields@.len() == t.len()) by {
                assert(fields@.map_values(|f: Vec<char>| f@).len() == fields@.len());
            }
        }
        if fields.len() < 2 {
            return Err(ParseError::WrongFieldCount { line: q + 1 });
        }
        let street_id = match find_first(sim, names, index, &fields[0]) {
            Some(id) => id,
            None => {
                return Err(ParseError::UnknownStreet { line: q + 1 });
            },
        };
        let time = match parse_u32(&fields[1]) {
            Some(v) => v,
            None => {
                return Err(ParseError::InvalidNumber { line: q + 1 });
            },
        };
        if intersection.get_street_time(street_id).is_some() {
            proof {
                assert(has_street(intersection.turns@, street_id)) by {
                    let w = crate::sched::index_of(intersection.turns@, street_id)->Some_0;
                    assert(intersection.turns@[w].0 == street_id);
                }
            }
            return Err(ParseError::DuplicateStreet { line: q + 1 });
        }
        proof {
            if has_street(intersection.turns@, street_id) {
                let w = choose|w: int| 0 <= w < intersection.turns@.len() && intersection.turns@[w].0 == street_id;
                assert(crate::sched::index_of(intersection.turns@, street_id) is Some);
            }
        }
        if time == 0 {
            return Err(ParseError::ZeroTime { line: q + 1 });
        }
        if intersection.cycle() > u32::MAX - time {
            return Err(ParseError::TooLarge { line: q + 1 });
        }
        proof {
            assert(street_id < sim.streets@.len());
        }
        intersection.add_street(street_id, time);
        q += 1;
        i += 1;
    }
    Ok(intersection)
}

impl<'a> Schedule<'a> {
    /// Replaces the plan by the one a schedule text gives: a line with the
    /// number of blocks, then for each an intersection id, a number of
    /// streets and that many lines `name green_time`. Leaves the schedule
    /// as it was when the text is not a valid plan.
    #[verifier::loop_isolation(false)]
    pub fn load_from_str(&mut self, s: &str) -> (r: Result<(), ParseError>)
        requires
            old(self).wf(),
        ensures
            final(self).wf(),
            final(self).simulation == old(self).simulation,
            r is Ok <==> plan_of_text(old(self).simulation, s@) is Some,
            r is Ok ==> final(self).plan() == plan_of_text(old(self).simulation, s@)->Some_0,
            r is Err ==> final(self).intersections@ == old(self).intersections@,
    {
        let sim = self.simulation;
        let chars = chars_of(s);
        let lines = split_lines(&chars);
        let ghost ls = lines_of(s@);
        proof {
            assert(lines@.len() == ls.len());
            assert forall|i: int| 0 <= i < lines@.len() implies #[trigger] lines@[i]@ == ls[i] by {
                assert(lines@.map_values(|l: Vec<char>| l@)[i] == lines@[i]@);
            }
        }
        if lines.len() == 0 {
            return Err(ParseError::MissingFirstLine);
        }
        let num_blocks = match parse_u32(&lines[0]) {
            Some(k) => k,
            None => {
                return Err(ParseError::InvalidNumber { line: 1 });
            },
        };
        let names = street_names(sim);
        let index = NameIndex::new(&names);
        let mut intersections: HashMap<IntersectionId, Intersection> = HashMap::new();
        let mut pos: usize = 1;
        let mut b: u32 = 0;
        proof {
            assert(intersections@.map_values(|i: Intersection| i.turns@) =~= Map::<
                IntersectionId,
                Seq<(StreetId, Time)>,
            >::empty());
        }
        while b < num_blocks
            invariant
                self.wf(),
                *self == *old(self),
                sim == self.simulation,
                ls == lines_of(s@),
                lines@.len() == ls.len(),
                forall|i: int| 0 <= i < lines@.len() ==> #[trigger] lines@[i]@ == ls[i],
                ls.len() >= 1,
                u32_of(ls[0]) == Some(num_blocks),
                0 <= b <= num_blocks,
                1 <= pos,
                read_blocks(sim, ls, pos as int, (num_blocks - b) as int, intersections@.map_values(
                    |i: Intersection| i.turns@,
                )) == plan_of_text(sim, s@),
                forall|k: IntersectionId| #[trigger]
                    intersections@.contains_key(k) ==> {
                        &&& k < sim.num_intersections
                        &&& intersections@[k].wf()
                        &&& forall|i: int|
                            0 <= i < intersections@[k].turns@.len()
                                ==> #[trigger] intersections@[k].turns@[i].0 < sim.streets@.len()
                    },
            decreases num_blocks - b,
        {
            let ghost acc = intersections@.map_values(|i: Intersection| i.turns@);
            if pos >= lines.len() || pos + 1 >= lines.len() {
                return Err(ParseError::MissingLine { line: pos.saturating_add(1) });
            }
            let inter_id = match parse_u32(&lines[pos]) {
                Some(id) => id,
                None => {
                    return Err(ParseError::InvalidNumber { line: pos + 1 });
                },
            };
            if inter_id >= sim.num_intersections {
                return Err(ParseError::IntersectionOutOfRange { line: pos + 1 });
            }
            let num_streets = match parse_u32(&lines[pos + 1]) {
                Some(n) => n,
                None => {
                    return Err(ParseError::InvalidNumber { line: pos + 2 });
                },
            };
            let ghost n_turns = read_turns(sim, ls, pos + 2, num_streets as int, Seq::empty());
            proof {
                assert(read_blocks(sim, ls, pos as int, (num_blocks - b) as int, acc) == match n_turns {
                    Some(turns) => read_blocks(
                        sim,
                        ls,
                        pos + 2 + num_streets,
                        (num_blocks - b - 1) as int,
                        acc.insert(inter_id, turns),
                    ),
                    None => None,
                });
            }
            let intersection = match read_intersection(sim, &names, &index, &lines, pos + 2, num_streets, Ghost(ls)) {
                Ok(inter) => inter,
                Err(e) => {
                    return Err(e);
                },
            };
            let q = pos + 2 + num_streets as usize;
            let ghost turns = intersection.turns@;
            intersections.insert(inter_id, intersection);
            proof {
                assert(intersections@.map_values(|i: Intersection| i.turns@) =~= acc.insert(
                    inter_id,
                    turns,
                ));
            }
            pos = q;
            b += 1;
        }
        self.intersections = intersections;
        proof {
            assert(self.plan() == plan_of_text(sim, s@)->Some_0);
        }
        Ok(())
    }
}

/// The lines `name green_time` of the phases `turns[..n]`.
pub open spec fn turns_text(sim: &Simulation, turns: Seq<(StreetId, Time)>, n: int) -> Seq<char>
    decreases n,
{
    if n <= 0 {
        Seq::empty()
    } else {
        turns_text(sim, turns, n - 1) + sim.streets@[turns[n - 1].0 as int].name@ + seq![' ']
            + decimal_of(turns[n - 1].1 as nat) + seq!['\n']
    }
}

/// The block of intersection `id`: its id, its number of phases and the
/// lines of its phases.
pub open spec fn block_text(sched: &Schedule, id: IntersectionId) -> Seq<char> {
    let t = sched.turns_at(id);
    decimal_of(id as nat) + seq!['\n'] + decimal_of(t.len()) + seq!['\n'] + turns_text(
        sched.simulation,
        t,
        t.len() as int,
    )
}

/// The blocks of the intersections `0..n` that have phases, in order of id.
pub open spec fn blocks_text(sched: &Schedule, n: int) -> Seq<char>
    decreases n,
{
    if n <= 0 {
        Seq::empty()
    } else if sched.turns_at((n - 1) as IntersectionId).len() > 0 {
        blocks_text(sched, n - 1) + block_text(sched, (n - 1) as IntersectionId)
    } else {
        blocks_text(sched, n - 1)
    }
}

/// The number of intersections among `0..n` that have phases.
pub open spec fn count_blocks(sched: &Schedule, n: int) -> int
    decreases n,
{
    if n <= 0 {
        0
    } else {
        count_blocks(sched, n - 1) + if sched.turns_at((n - 1) as IntersectionId).len() > 0 {
            1int
        } else {
            0
        }
    }
}

/// The schedule text of `sched`: intersections without phases are left out.
pub open spec fn schedule_text(sched: &Schedule) -> Seq<char> {
    let n = sched.simulation.num_intersections as int;
    decimal_of(count_blocks(sched, n) as nat) + seq!['\n'] + blocks_text(sched, n)
}

impl<'a> Schedule<'a> {
    /// The schedule as text, in the format `load_from_str` reads.
    pub fn to_text(&self) -> (r: String)
        requires
            self.wf(),
        ensures
            r@ == schedule_text(self),
    {
        let sim = self.simulation;
        let mut body: Vec<char> = Vec::new();
        let mut count: u64 = 0;
        let mut k: IntersectionId = 0;
        while k < sim.num_intersections
            invariant
                self.wf(),
                sim == self.simulation,
                0 <= k <= sim.num_intersections,
                body@ == blocks_text(self, k as int),
                count == count_blocks(self, k as int),
                count <= k,
            decreases sim.num_intersections - k,
        {
            match self.intersections.get(&k) {
                Some(inter) => {
                    if inter.turns.len() > 0 {
                        let ghost before = body@;
                        push_decimal(&mut body, k as u64);
                        body.push('\n');
                        push_decimal(&mut body, inter.turns.len() as u64);
                        body.push('\n');
                        let ghost head = body@;
                        let mut j: usize = 0;
                        while j < inter.turns.len()
                            invariant
                                self.wf(),
                                sim == self.simulation,
                                self.intersections@.contains_key(k),
                                inter == self.intersections@[k],
                                0 <= j <= inter.turns@.len(),
                                body@ == head + turns_text(sim, inter.turns@, j as int),
                            decreases inter.turns@.len() - j,
                        {
                            let (street_id, time) = inter.turns[j];
                            proof {
                                assert(self.intersections@.contains_key(k));
                                assert(j < self.intersections@[k].turns@.len());
                                assert(self.wf());
                                assert(self.intersections@[k].turns@[j as int].0 < self.simulation.streets@.len());
                            }
                            let ghost b0 = body@;
                            let name = chars_of(sim.streets[street_id].name.as_str());
                            let mut x: usize = 0;
                            while x < name.len()
                                invariant
                                    0 <= x <= name@.len(),
                                    body@ == b0 + name@.subrange(0, x as int),
                                decreases name@.len() - x,
                            {
                                body.push(name[x]);
                                proof {
                                    assert(name@.subrange(0, x as int + 1) =~= name@.subrange(0, x as int).push(name@[x as int]));
                                    assert(b0 + name@.subrange(0, x as int + 1) =~= (b0 + name@.subrange(0, x as int)).push(name@[x as int]));
                                }
                                x += 1;
                            }
                            body.push(' ');
                            push_decimal(&mut body, time as u64);
                            body.push('\n');
                            proof {
                                assert(name@.subrange(0, name@.len() as int) =~= name@);
                                assert(body@ =~= head + turns_text(sim, inter.turns@, j as int + 1));
                            }
                            j += 1;
                        }
                        proof {
                            assert(body@ =~= before + block_text(self, k));
                        }
                        count += 1;
                    }
                },
                None => {
                    proof {
                        assert(self.turns_at(k).len() == 0);
                    }
                },
            }
            k += 1;
        }
        let mut out: Vec<char> = Vec::new();
        push_decimal(&mut out, count);
        out.push('\n');
        let mut x: usize = 0;
        let ghost o0 = out@;
        while x < body.len()
            invariant
                0 <= x <= body@.len(),
                out@ == o0 + body@.subrange(0, x as int),
            decreases body@.len() - x,
        {
            out.push(body[x]);
            proof {
                assert(o0 + body@.subrange(0, x as int + 1) =~= (o0 + body@.subrange(0, x as int)).push(body@[x as int]));
            }
            x += 1;
        }
        proof {
            assert(body@.subrange(0, body@.len() as int) =~= body@);
            assert(out@ =~= schedule_text(self));
        }
        string_of(&out)
    }
}

} // verus!

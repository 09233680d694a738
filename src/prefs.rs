use vstd::prelude::*;
use vstd::string::StrSliceExecFns;
use crate::names::names;

verus! {

/// Whether `p` is a known person who likes project `q`.
pub open spec fn likes_in(m: Map<Seq<char>, Set<Seq<char>>>, p: Seq<char>, q: Seq<char>) -> bool {
    m.contains_key(p) && m[p].contains(q)
}

/// The cells of a table of strings.
pub open spec fn rows_view(t: Vec<Vec<String>>) -> Seq<Seq<Seq<char>>> {
    t@.map_values(|row: Vec<String>| names(row@))
}

/// Column `c` of the table's first row names a project (the first column never does).
pub open spec fn header_project(t: Seq<Seq<Seq<char>>>, c: int) -> bool {
    t.len() > 0 && 1 <= c < t[0].len() && t[0][c].len() > 0
}

/// `p` is a project named in the header, or the first cell of one of rows `1 .. r`.
pub open spec fn person_upto(t: Seq<Seq<Seq<char>>>, p: Seq<char>, r: int) -> bool {
    ||| exists|c: int| header_project(t, c) && #[trigger] t[0][c] == p
    ||| exists|x: int| 1 <= x < r && t[x].len() > 0 && #[trigger] t[x][0] == p
}

/// One of cells `1 .. c` of row `x` is filled, under a header that names `q`.
pub open spec fn row_mark(t: Seq<Seq<Seq<char>>>, x: int, q: Seq<char>, c: int) -> bool {
    exists|y: int|
        1 <= y < c && y < t[x].len() && header_project(t, y) && #[trigger] t[0][y] == q
            && t[x][y].len() > 0
}

/// One of rows `1 .. r` starts with `p` and marks project `q`.
pub open spec fn marks_upto(t: Seq<Seq<Seq<char>>>, p: Seq<char>, q: Seq<char>, r: int) -> bool {
    exists|x: int|
        1 <= x < r && t[x].len() > 0 && #[trigger] t[x][0] == p && row_mark(
            t,
            x,
            q,
            t[x].len() as int,
        )
}

/// `m` is the preference relation that table `t` states: the header row (after its first
/// cell) lists projects, and each later row starts with a person and has a non-empty cell
/// under each project that this person likes. Everyone named in the header or at the start of
/// a row is a known person.
pub open spec fn matches_table(m: Map<Seq<char>, Set<Seq<char>>>, t: Seq<Seq<Seq<char>>>) -> bool {
    &&& forall|p: Seq<char>| #[trigger] m.contains_key(p) <==> person_upto(t, p, t.len() as int)
    &&& forall|p: Seq<char>, q: Seq<char>|
        m.contains_key(p) ==> (#[trigger] m[p].contains(q) <==> marks_upto(
            t,
            p,
            q,
            t.len() as int,
        ))
}

/// What the csv crate reads from `data`, taking no row as a header: the records, each as its
/// list of fields, or `None` where the data is not well-formed CSV.
pub uninterp spec fn csv_read_of(data: Seq<u8>) -> Option<Seq<Seq<Seq<char>>>>;

#[verifier::external_type_specification]
#[verifier::external_body]
pub struct ExCsvError(csv::Error);

/// Why a preference table could not be read.
#[derive(Debug)]
pub enum TableError {
    /// The data is not well-formed CSV (for instance, rows of different lengths).
    Csv(csv::Error),
}

/// Relies on csv's `Reader` (built by `ReaderBuilder` with `has_headers(false)`) and its
/// `records` iterator: the records of the data in order, each as its fields, or the first
/// error met. The outcome depends on the bytes alone.
#[verifier::external_body]
fn read_records(data: &[u8]) -> (r: Result<Vec<Vec<String>>, csv::Error>)
    ensures
        r is Ok <==> csv_read_of(data@) is Some,
        r is Ok ==> csv_read_of(data@) == Some(rows_view(r->Ok_0)),
{
    let mut reader = csv::ReaderBuilder::new().has_headers(false).from_reader(data);
    let mut rows = Vec::new();
    for record in reader.records() {
        rows.push(record?.iter().map(String::from).collect());
    }
    Ok(rows)
}

/// Whether a string has at least one character.
fn filled(s: &String) -> (r: bool)
    ensures
        r == (s@.len() > 0),
{
    s.as_str().unicode_len() > 0
}

/// The position of `name` in `people`, which gets it (with no liked projects yet) if it was
/// not there.
fn enroll(people: &mut Vec<String>, liked: &mut Vec<Vec<String>>, name: &String) -> (i: usize)
    requires
        old(people)@.len() == old(liked)@.len(),
        names(old(people)@).no_duplicates(),
    ensures
        final(people)@.len() == final(liked)@.len(),
        names(final(people)@).no_duplicates(),
        i < final(people)@.len(),
        final(people)@[i as int]@ == name@,
        forall|p: Seq<char>|
            #[trigger] names(final(people)@).contains(p) <==> (names(old(people)@).contains(p) || p
                == name@),
        forall|l: int| 0 <= l < old(people)@.len() ==> #[trigger] final(people)@[l] == old(people)@[l],
        forall|l: int| 0 <= l < old(liked)@.len() ==> #[trigger] final(liked)@[l] == old(liked)@[l],
        i < old(people)@.len() ==> final(people)@ == old(people)@ && final(liked)@ == old(liked)@,
        i >= old(people)@.len() ==> {
            &&& i == old(people)@.len()
            &&& final(people)@.len() == old(people)@.len() + 1
            &&& final(liked)@[i as int]@.len() == 0
            &&& !names(old(people)@).contains(name@)
        },
{
    match position(people, name) {
        Some(i) => {
            proof {
                assert(names(people@)[i as int] == name@);
            }
            i
        },
        None => {
            let i = people.len();
            let ghost before = names(people@);
            people.push(name.clone());
            liked.push(Vec::new());
            proof {
                assert(names(people@) =~= before.push(name@));
                assert forall|a: int, b: int|
                    0 <= a < b < names(people@).len() implies names(people@)[a] != names(
                    people@,
                )[b] by {
                    if b == i {
                        assert(before[a] == names(people@)[a]);
                        assert(before.contains(before[a]));
                    }
                }
                assert forall|p: Seq<char>|
                    #[trigger] names(people@).contains(p) <==> (before.contains(p) || p
                        == name@) by {
                    if names(people@).contains(p) {
                        let k = choose|k: int| 0 <= k < names(people@).len() && names(people@)[k] == p;
                        if k < before.len() {
                            assert(before[k] == p);
                        }
                    }
                    if before.contains(p) {
                        let k = choose|k: int| 0 <= k < before.len() && before[k] == p;
                        assert(names(people@)[k] == p);
                    }
                    if p == name@ {
                        assert(names(people@)[i as int] == p);
                    }
                }
            }
            i
        },
    }
}

/// Who likes which project: each known person with the set of projects they prefer.
pub struct PrefGrid {
    people: Vec<String>,
    liked: Vec<Vec<String>>,
}

impl PrefGrid {
    #[verifier::type_invariant]
    spec fn well_formed(&self) -> bool {
        &&& self.people@.len() == self.liked@.len()
        &&& names(self.people@).no_duplicates()
    }

    spec fn slot(&self, p: Seq<char>) -> int {
        choose|i: int| 0 <= i < self.people@.len() && self.people@[i]@ == p
    }
}

impl View for PrefGrid {
    type V = Map<Seq<char>, Set<Seq<char>>>;

    closed spec fn view(&self) -> Map<Seq<char>, Set<Seq<char>>> {
        Map::new(
            |p: Seq<char>| names(self.people@).contains(p),
            |p: Seq<char>| names(self.liked@[self.slot(p)]@).to_set(),
        )
    }
}

/// The position of `name` in `list`, if it is there.
fn position(list: &Vec<String>, name: &String) -> (r: Option<usize>)
    ensures
        match r {
            Some(i) => i < list@.len() && list@[i as int]@ == name@,
            None => !names(list@).contains(name@),
        },
{
    let mut i: usize = 0;
    while i < list.len()
        invariant
            i <= list@.len(),
            forall|k: int| 0 <= k < i ==> list@[k]@ != name@,
        decreases list@.len() - i,
    {
        if list[i] == *name {
            return Some(i);
        }
        i = i + 1;
    }
    proof {
        if names(list@).contains(name@) {
            let k = choose|k: int| 0 <= k < names(list@).len() && names(list@)[k] == name@;
            assert(list@[k]@ == name@);
        }
    }
    None
}

impl PrefGrid {
    /// Builds the preference relation that a table states (see `matches_table`).
    pub fn from_table(table: &Vec<Vec<String>>) -> (r: PrefGrid)
        ensures
            matches_table(r@, rows_view(*table)),
    {
        let ghost t = rows_view(*table);
        let mut people: Vec<String> = Vec::new();
        let mut liked: Vec<Vec<String>> = Vec::new();
        if table.len() == 0 {
            let r = PrefGrid { people, liked };
            proof {
                assert(r@.dom() =~= Set::empty());
            }
            return r;
        }
        let header = &table[0];
        let mut c: usize = 1;
        while c < header.len()
            invariant
                t == rows_view(*table),
                table@.len() > 0,
                *header == table@[0],
                1 <= c,
                people@.len() == liked@.len(),
                names(people@).no_duplicates(),
                forall|i: int| 0 <= i < liked@.len() ==> (#[trigger] liked@[i])@.len() == 0,
                forall|p: Seq<char>|
                    #[trigger] names(people@).contains(p) <==> exists|y: int|
                        1 <= y < c && header_project(t, y) && #[trigger] t[0][y] == p,
            decreases header@.len() - c,
        {
            if filled(&header[c]) {
                let ghost old_liked = liked@;
                let _ = enroll(&mut people, &mut liked, &header[c]);
                proof {
                    assert(t[0][c as int] == header@[c as int]@);
                    assert forall|i: int| 0 <= i < liked@.len() implies (#[trigger] liked@[i])@.len()
                        == 0 by {
                        if i < old_liked.len() {
                            assert(liked@[i] == old_liked[i]);
                        }
                    }
                }
            }
            c = c + 1;
        }
        let mut x: usize = 1;
        while x < table.len()
            invariant
                t == rows_view(*table),
                *header == table@[0],
                1 <= x <= table@.len(),
                people@.len() == liked@.len(),
                names(people@).no_duplicates(),
                forall|p: Seq<char>| #[trigger] names(people@).contains(p) <==> person_upto(t, p, x as int),
                forall|i: int, q: Seq<char>|
                    0 <= i < people@.len() ==> (#[trigger] names(liked@[i]@).contains(q)
                        <==> marks_upto(t, people@[i]@, q, x as int)),
            decreases table@.len() - x,
        {
            let row = &table[x];
            assert(t[x as int] == names(row@));
            if row.len() > 0 {
                let ghost old_people = people@;
                let ghost old_liked = liked@;
                let pi = enroll(&mut people, &mut liked, &row[0]);
                proof {
                    assert forall|p: Seq<char>| #[trigger] names(people@).contains(p) <==> person_upto(
                        t,
                        p,
                        x + 1,
                    ) by {
                        if p == row@[0]@ {
                            assert(t[x as int][0] == p);
                        }
                    }
                    assert forall|i: int, q: Seq<char>|
                        0 <= i < people@.len() implies (#[trigger] names(liked@[i]@).contains(q)
                            <==> (marks_upto(t, people@[i]@, q, x as int) || (i == pi && row_mark(
                            t,
                            x as int,
                            q,
                            1,
                        )))) by {
                        if i >= old_people.len() {
                            assert(names(liked@[i]@).len() == 0);
                            if marks_upto(t, people@[i]@, q, x as int) {
                                let w = choose|w: int|
                                    1 <= w < x && t[w].len() > 0 && #[trigger] t[w][0] == people@[i]@
                                        && row_mark(t, w, q, t[w].len() as int);
                                assert(person_upto(t, people@[i]@, x as int));
                                assert(names(old_people).contains(people@[i]@));
                            }
                        } else {
                            assert(names(people@)[i] == names(old_people)[i]);
                        }
                    }
                }
                let mut c: usize = 1;
                while c < row.len()
                    invariant
                        t == rows_view(*table),
                        *header == table@[0],
                        *row == table@[x as int],
                        t[x as int] == names(row@),
                        1 <= x < table@.len(),
                        1 <= c <= row@.len(),
                        people@.len() == liked@.len(),
                        names(people@).no_duplicates(),
                        forall|p: Seq<char>| #[trigger] names(people@).contains(p) <==> person_upto(t, p, x + 1),
                        pi < people@.len(),
                        people@[pi as int]@ == t[x as int][0],
                        forall|i: int, q: Seq<char>|
                            0 <= i < people@.len() ==> (#[trigger] names(liked@[i]@).contains(q)
                                <==> (marks_upto(t, people@[i]@, q, x as int) || (i == pi && row_mark(
                                t,
                                x as int,
                                q,
                                c as int,
                            )))),
                    decreases row@.len() - c,
                {
                    if c < header.len() && filled(&header[c]) && filled(&row[c]) {
                        let ghost before = liked@;
                        let h = header[c].clone();
                        liked[pi].push(h);
                        proof {
                            assert(t[0][c as int] == h@);
                            assert forall|i: int, q: Seq<char>|
                                0 <= i < people@.len() implies (#[trigger] names(liked@[i]@).contains(q)
                                    <==> (marks_upto(t, people@[i]@, q, x as int) || (i == pi
                                    && row_mark(t, x as int, q, c + 1)))) by {
                                if i == pi {
                                    let old_names = names(before[i]@);
                                    assert(names(liked@[i]@) =~= old_names.push(h@));
                                    if names(liked@[i]@).contains(q) && q != h@ {
                                        let k = choose|k: int|
                                            0 <= k < names(liked@[i]@).len() && names(liked@[i]@)[k] == q;
                                        assert(old_names[k] == q);
                                    }
                                    if old_names.contains(q) {
                                        let k = choose|k: int| 0 <= k < old_names.len() && old_names[k] == q;
                                        assert(names(liked@[i]@)[k] == q);
                                    }
                                    if q == h@ {
                                        assert(names(liked@[i]@)[old_names.len() as int] == q);
                                    }
                                } else {
                                    assert(liked@[i] == before[i]);
                                }
                            }
                        }
                    }
                    c = c + 1;
                }
                proof {
                    assert forall|i: int, q: Seq<char>|
                        0 <= i < people@.len() implies (#[trigger] names(liked@[i]@).contains(q)
                            <==> marks_upto(t, people@[i]@, q, x + 1)) by {
                        if i == pi {
                            if row_mark(t, x as int, q, c as int) {
                                assert(t[x as int][0] == people@[i]@);
                            }
                        } else {
                            assert(names(people@)[i] != names(people@)[pi as int]);
                            if marks_upto(t, people@[i]@, q, x + 1) {
                                let w = choose|w: int|
                                    1 <= w < x + 1 && t[w].len() > 0 && #[trigger] t[w][0]
                                        == people@[i]@ && row_mark(t, w, q, t[w].len() as int);
                                assert(w != x);
                            }
                        }
                    }
                }
            } else {
                proof {
                    assert forall|p: Seq<char>| #[trigger] names(people@).contains(p) <==> person_upto(
                        t,
                        p,
                        x + 1,
                    ) by {
                        if person_upto(t, p, x + 1) && !person_upto(t, p, x as int) {
                            let w = choose|w: int| 1 <= w < x + 1 && t[w].len() > 0 && #[trigger] t[w][0] == p;
                            assert(w != x);
                        }
                    }
                    assert forall|i: int, q: Seq<char>|
                        0 <= i < people@.len() implies (#[trigger] names(liked@[i]@).contains(q)
                            <==> marks_upto(t, people@[i]@, q, x + 1)) by {
                        if marks_upto(t, people@[i]@, q, x + 1) {
                            let w = choose|w: int|
                                1 <= w < x + 1 && t[w].len() > 0 && #[trigger] t[w][0]
                                    == people@[i]@ && row_mark(t, w, q, t[w].len() as int);
                            assert(w != x);
                        }
                    }
                }
            }
            x = x + 1;
        }
        let r = PrefGrid { people, liked };
        proof {
            assert forall|p: Seq<char>, q: Seq<char>| r@.contains_key(p) implies (#[trigger] r@[p].contains(q)
                <==> marks_upto(t, p, q, t.len() as int)) by {
                let i = r.slot(p);
                let k = choose|k: int| 0 <= k < names(r.people@).len() && names(r.people@)[k] == p;
                assert(r.people@[k]@ == p);
                assert(names(r.people@)[i] == names(r.people@)[k]);
                assert(names(r.liked@[i]@).to_set().contains(q) == names(r.liked@[i]@).contains(q));
            }
        }
        r
    }

    /// Reads a preference table in CSV form and builds the relation it states; fails, with
    /// no grid at all, exactly when the data is not well-formed CSV.
    pub fn from_csv(data: &[u8]) -> (r: Result<PrefGrid, TableError>)
        ensures
            r is Ok <==> csv_read_of(data@) is Some,
            r is Ok ==> matches_table(r->Ok_0@, csv_read_of(data@)->Some_0),
    {
        match read_records(data) {
            Ok(rows) => Ok(PrefGrid::from_table(&rows)),
            Err(e) => Err(TableError::Csv(e)),
        }
    }

    /// Whether `member` likes the project `team`. `member` must be a known person; an unknown
    /// project is simply not liked.
    pub fn likes(&self, member: &str, team: &str) -> (r: bool)
        requires
            self@.contains_key(member@),
        ensures
            r == self@[member@].contains(team@),
    {
        proof {
            use_type_invariant(self);
        }
        let m = String::from_str(member);
        let t = String::from_str(team);
        match position(&self.people, &m) {
            Some(i) => {
                proof {
                    let j = self.slot(member@);
                    assert(names(self.people@)[i as int] == names(self.people@)[j]);
                }
                let found = position(&self.liked[i], &t);
                proof {
                    let s = names(self.liked@[i as int]@);
                    if let Some(k) = found {
                        assert(s[k as int] == team@);
                    }
                }
                found.is_some()
            },
            None => false,
        }
    }

    /// Every known person, each once.
    pub fn all_people(&self) -> (r: Vec<String>)
        ensures
            names(r@).no_duplicates(),
            forall|p: Seq<char>| names(r@).contains(p) <==> self@.contains_key(p),
            r@.len() == self@.dom().len(),
    {
        proof {
            use_type_invariant(self);
        }
        let mut r: Vec<String> = Vec::new();
        let mut i: usize = 0;
        while i < self.people.len()
            invariant
                i <= self.people@.len(),
                r@.len() == i,
                forall|k: int| 0 <= k < i ==> r@[k]@ == self.people@[k]@,
            decreases self.people@.len() - i,
        {
            r.push(self.people[i].clone());
            i = i + 1;
        }
        proof {
            assert(names(r@) =~= names(self.people@));
            assert(self@.dom() =~= names(self.people@).to_set());
            names(self.people@).unique_seq_to_set();
        }
        r
    }
}

} // verus!
